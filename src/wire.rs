//! The SCALE wire format as mathematics: little-endian integers and compact
//! integers, with the lemmas that tie encoding and decoding together.
use vstd::prelude::*;
use vstd::utf8::{decode_utf8, encode_utf8, valid_utf8};

verus! {

/// `256^n`.
pub open spec fn pow256(n: nat) -> nat
    decreases n,
{
    if n == 0 {
        1
    } else {
        256 * pow256((n - 1) as nat)
    }
}

/// The `n` low-order bytes of `v`, least significant first.
pub open spec fn le_bytes(v: nat, n: nat) -> Seq<u8>
    decreases n,
{
    if n == 0 {
        Seq::empty()
    } else {
        seq![(v % 256) as u8] + le_bytes(v / 256, (n - 1) as nat)
    }
}

/// The number that little-endian bytes stand for.
pub open spec fn le_value(s: Seq<u8>) -> nat
    decreases s.len(),
{
    if s.len() == 0 {
        0
    } else {
        s[0] as nat + 256 * le_value(s.drop_first())
    }
}

/// The number of bytes needed to write `v` without leading zero bytes.
pub open spec fn significant_bytes(v: nat) -> nat
    decreases v,
{
    if v == 0 {
        0
    } else {
        1 + significant_bytes(v / 256)
    }
}

/// The compact encoding of `v`: a two-bit mode in the low bits of the first
/// byte selects one, two or four bytes, or a length-prefixed big integer.
pub open spec fn compact_encoding(v: u64) -> Seq<u8> {
    if v < 0x40 {
        seq![(v * 4) as u8]
    } else if v < 0x4000 {
        seq![((v % 64) * 4 + 1) as u8, (v / 64) as u8]
    } else if v < 0x4000_0000 {
        seq![((v % 64) * 4 + 2) as u8] + le_bytes((v / 64) as nat, 3)
    } else {
        let n = significant_bytes(v as nat);
        seq![((n - 4) * 4 + 3) as u8] + le_bytes(v as nat, n)
    }
}

/// A boolean: one byte, 0 or 1.
pub open spec fn bool_encoding(b: bool) -> Seq<u8> {
    seq![if b { 1u8 } else { 0u8 }]
}

/// A byte string: its compact length, then the bytes.
pub open spec fn bytes_encoding(b: Seq<u8>) -> Seq<u8> {
    compact_encoding(b.len() as u64) + b
}

/// An optional boolean packs its three states into one byte.
pub open spec fn option_bool_encoding(o: Option<bool>) -> Seq<u8> {
    match o {
        None => seq![0u8],
        Some(true) => seq![1u8],
        Some(false) => seq![2u8],
    }
}

/// What a decoder finds at the start of some bytes where a compact integer is
/// expected.
pub enum CompactRead {
    /// The canonical encoding of `value`, `len` bytes long.
    Value { value: u64, len: nat },
    /// The bytes end before the encoding does.
    EndOfInput,
    /// A big-integer header whose payload would not fit in 64 bits, or an
    /// encoding whose value belongs to a shorter mode; the bytes read
    /// before that was found.
    OutOfRange(nat),
}

/// How compact integers are read: the decoder looks at the mode of the first
/// byte, reads that many bytes and accepts only the canonical encoding.
pub open spec fn compact_read(s: Seq<u8>) -> CompactRead {
    if s.len() < 1 {
        CompactRead::EndOfInput
    } else {
        let head = s[0];
        let low = (head / 4) as nat;
        if head % 4 == 0 {
            CompactRead::Value { value: low as u64, len: 1 }
        } else if head % 4 == 1 {
            if s.len() < 2 {
                CompactRead::EndOfInput
            } else if s[1] == 0 {
                CompactRead::OutOfRange(2)
            } else {
                CompactRead::Value { value: (low + 64 * s[1]) as u64, len: 2 }
            }
        } else if head % 4 == 2 {
            if s.len() < 4 {
                CompactRead::EndOfInput
            } else {
                let v = low + 64 * le_value(s.subrange(1, 4));
                if v < 0x4000 {
                    CompactRead::OutOfRange(4)
                } else {
                    CompactRead::Value { value: v as u64, len: 4 }
                }
            }
        } else {
            let n = low + 4;
            if n > 8 {
                CompactRead::OutOfRange(1)
            } else if s.len() < n + 1 {
                CompactRead::EndOfInput
            } else {
                let v = le_value(s.subrange(1, n + 1 as int));
                if v < 0x4000_0000 || significant_bytes(v) != n {
                    CompactRead::OutOfRange(n + 1)
                } else {
                    CompactRead::Value { value: v as u64, len: n + 1 }
                }
            }
        }
    }
}

pub proof fn lemma_le_bytes_len(v: nat, n: nat)
    ensures
        le_bytes(v, n).len() == n,
    decreases n,
{
    if n > 0 {
        lemma_le_bytes_len(v / 256, (n - 1) as nat);
    }
}

pub proof fn lemma_pow256_positive(n: nat)
    ensures
        pow256(n) > 0,
    decreases n,
{
    if n > 0 {
        lemma_pow256_positive((n - 1) as nat);
    }
}

/// Reading back `n` written bytes gives the value, when it fits in them.
pub proof fn lemma_le_value_of_bytes(v: nat, n: nat)
    requires
        v < pow256(n),
    ensures
        le_value(le_bytes(v, n)) == v,
    decreases n,
{
    lemma_le_bytes_len(v, n);
    if n == 0 {
    } else {
        let s = le_bytes(v, n);
        assert(s.drop_first() =~= le_bytes(v / 256, (n - 1) as nat));
        assert(v / 256 < pow256((n - 1) as nat)) by (nonlinear_arith)
            requires
                v < 256 * pow256((n - 1) as nat),
        ;
        lemma_le_value_of_bytes(v / 256, (n - 1) as nat);
        assert(v == v % 256 + 256 * (v / 256)) by (nonlinear_arith);
    }
}

/// Writing back the value of some bytes gives the same bytes.
pub proof fn lemma_le_bytes_of_value(s: Seq<u8>)
    ensures
        le_bytes(le_value(s), s.len()) == s,
        le_value(s) < pow256(s.len()),
    decreases s.len(),
{
    if s.len() > 0 {
        let rest = s.drop_first();
        lemma_le_bytes_of_value(rest);
        let x = le_value(rest);
        let b = s[0] as nat;
        assert((b + 256 * x) % 256 == b && (b + 256 * x) / 256 == x) by (nonlinear_arith)
            requires
                b < 256,
        ;
        assert(b + 256 * x < 256 * pow256(rest.len())) by (nonlinear_arith)
            requires
                b < 256,
                x < pow256(rest.len()),
        ;
        assert(le_bytes(le_value(s), s.len()) =~= s);
    }
}

/// `v` needs at most `n` bytes exactly when it is below `256^n`.
pub proof fn lemma_significant_bytes_bound(v: nat, n: nat)
    ensures
        significant_bytes(v) <= n <==> v < pow256(n),
    decreases n,
{
    if n == 0 {
    } else if v == 0 {
        lemma_pow256_positive(n);
    } else {
        lemma_significant_bytes_bound(v / 256, (n - 1) as nat);
        let p = pow256((n - 1) as nat);
        assert(v / 256 < p <==> v < 256 * p) by (nonlinear_arith);
    }
}


pub proof fn lemma_pow256_values()
    ensures
        pow256(3) == 0x100_0000,
        pow256(4) == 0x1_0000_0000,
        pow256(8) == 0x1_0000_0000_0000_0000,
{
    reveal_with_fuel(pow256, 9);
}

pub proof fn lemma_pow256_small()
    ensures
        pow256(1) == 0x100,
        pow256(2) == 0x1_0000,
        pow256(4) == 0x1_0000_0000,
        pow256(8) == 0x1_0000_0000_0000_0000,
{
    reveal_with_fuel(pow256, 9);
}

/// A value of the big-integer mode takes between four and eight bytes.
pub proof fn lemma_big_mode_width(v: u64)
    requires
        v >= 0x4000_0000,
    ensures
        4 <= significant_bytes(v as nat) <= 8,
        (v as nat) < pow256(significant_bytes(v as nat)),
{
    lemma_pow256_values();
    lemma_significant_bytes_bound(v as nat, 3);
    lemma_significant_bytes_bound(v as nat, 8);
    lemma_significant_bytes_bound(v as nat, significant_bytes(v as nat));
}

/// The length of a compact encoding.
pub proof fn lemma_compact_encoding_len(v: u64)
    ensures
        1 <= compact_encoding(v).len() <= 9,
        v < 0x40 ==> compact_encoding(v).len() == 1,
        0x40 <= v < 0x4000 ==> compact_encoding(v).len() == 2,
        0x4000 <= v < 0x4000_0000 ==> compact_encoding(v).len() == 4,
        v >= 0x4000_0000 ==> compact_encoding(v).len() == 1 + significant_bytes(v as nat),
{
    lemma_le_bytes_len((v / 64) as nat, 3);
    if v >= 0x4000_0000 {
        lemma_big_mode_width(v);
        lemma_le_bytes_len(v as nat, significant_bytes(v as nat));
    }
}

/// Reading a compact encoding, whatever follows it, gives back its value.
pub proof fn lemma_compact_read_encoding(v: u64, rest: Seq<u8>)
    ensures
        compact_read(compact_encoding(v) + rest) == (CompactRead::Value {
            value: v,
            len: compact_encoding(v).len(),
        }),
{
    let e = compact_encoding(v);
    let s = e + rest;
    lemma_compact_encoding_len(v);
    lemma_pow256_values();
    if v < 0x40 {
    } else if v < 0x4000 {
        assert(s[1] == (v / 64) as u8);
    } else if v < 0x4000_0000 {
        let h = (v / 64) as nat;
        assert(h < pow256(3));
        lemma_le_value_of_bytes(h, 3);
        assert(s.subrange(1, 4) =~= le_bytes(h, 3));
        assert(v as nat == v % 64 + 64 * h);
    } else {
        let n = significant_bytes(v as nat);
        lemma_big_mode_width(v);
        lemma_le_value_of_bytes(v as nat, n);
        assert(s.subrange(1, n + 1 as int) =~= le_bytes(v as nat, n));
        assert(s[0] == ((n - 4) * 4 + 3) as u8);
    }
}

/// Only canonical encodings are read: what a read accepts is the encoding of
/// the value it returns.
pub proof fn lemma_compact_read_canonical(s: Seq<u8>)
    requires
        compact_read(s) is Value,
    ensures
        compact_read(s)->len == compact_encoding(compact_read(s)->value).len(),
        compact_read(s)->len <= s.len(),
        s.subrange(0, compact_read(s)->len as int) == compact_encoding(compact_read(s)->value),
{
    let v = compact_read(s)->value;
    let n = compact_read(s)->len;
    let head = s[0];
    lemma_compact_encoding_len(v);
    lemma_pow256_values();
    if head % 4 == 0 {
        assert(s.subrange(0, 1) =~= compact_encoding(v));
    } else if head % 4 == 1 {
        assert(s.subrange(0, 2) =~= compact_encoding(v));
    } else if head % 4 == 2 {
        let x = s.subrange(1, 4);
        lemma_le_bytes_of_value(x);
        assert(v / 64 == le_value(x) && v % 64 == head / 4);
        assert(s.subrange(0, 4) =~= compact_encoding(v));
    } else {
        let x = s.subrange(1, n as int);
        lemma_le_bytes_of_value(x);
        lemma_significant_bytes_bound(le_value(x), 8);
        assert(v as nat == le_value(x));
        let w = significant_bytes(v as nat);
        assert(w == x.len());
        assert(head == ((w - 4) * 4 + 3) as u8);
        assert(s.subrange(0, n as int) =~= compact_encoding(v));
    }
}


/// Appends the `n` low-order bytes of `v`, least significant first.
pub fn push_le(out: &mut Vec<u8>, v: u64, n: usize)
    requires
        n <= 8,
    ensures
        final(out)@ == old(out)@ + le_bytes(v as nat, n as nat),
{
    let mut w: u64 = v;
    let mut i: usize = 0;
    while i < n
        invariant
            i <= n,
            out@ + le_bytes(w as nat, (n - i) as nat) == old(out)@ + le_bytes(v as nat, n as nat),
        decreases n - i,
    {
        let ghost before = out@;
        let ghost k = (n - i) as nat;
        out.push((w % 256) as u8);
        proof {
            assert(le_bytes(w as nat, k) == seq![(w % 256) as u8] + le_bytes((w / 256) as nat, (k - 1) as nat));
            assert(out@ + le_bytes((w / 256) as nat, (k - 1) as nat) =~= before + le_bytes(w as nat, k));
        }
        w = w / 256;
        i = i + 1;
    }
    assert(out@ =~= out@ + le_bytes(w as nat, 0));
}

/// The value of at most eight little-endian bytes.
pub fn le_to_u64(b: &[u8]) -> (r: u64)
    requires
        b@.len() <= 8,
    ensures
        r as nat == le_value(b@),
{
    let mut acc: u64 = 0;
    let mut i: usize = b.len();
    proof {
        lemma_pow256_values();
    }
    while i > 0
        invariant
            i <= b@.len() <= 8,
            acc as nat == le_value(b@.subrange(i as int, b@.len() as int)),
            pow256(8) == 0x1_0000_0000_0000_0000,
        decreases i,
    {
        let ghost tail = b@.subrange(i as int, b@.len() as int);
        proof {
            lemma_le_bytes_of_value(tail);
            lemma_significant_bytes_bound(le_value(tail), tail.len());
            lemma_significant_bytes_bound(le_value(tail), 7);
            assert(acc < pow256(7)) by {
                reveal_with_fuel(pow256, 8);
            }
            assert(b@.subrange(i - 1, b@.len() as int).drop_first() =~= tail);
        }
        i = i - 1;
        acc = acc * 256 + b[i] as u64;
    }
    assert(b@.subrange(0, b@.len() as int) =~= b@);
    acc
}

/// Exec form of [`significant_bytes`].
pub fn count_significant_bytes(v: u64) -> (n: usize)
    ensures
        n == significant_bytes(v as nat),
        n <= 8,
{
    let mut n: usize = 0;
    let mut w: u64 = v;
    proof {
        lemma_pow256_values();
        lemma_significant_bytes_bound(v as nat, 8);
    }
    while w > 0
        invariant
            n + significant_bytes(w as nat) == significant_bytes(v as nat),
            significant_bytes(v as nat) <= 8,
        decreases w,
    {
        n = n + 1;
        w = w / 256;
    }
    n
}


/// Why decoding stops, short of running out of input.
pub enum Fault {
    /// A boolean byte other than 0 or 1.
    ExpectedBoolean(u8),
    /// A code point that is not a Unicode scalar value.
    InvalidCharacter(u32),
    /// A compact integer out of range, or a length beyond `usize`.
    OutOfRange,
    /// String bytes that are not UTF-8.
    InvalidUnicode,
    /// An option discriminant other than 0, 1 or 2, or 2 before a payload
    /// that is not a boolean.
    InvalidOption(u8),
    /// An enum variant index that the expected shape does not have.
    UnknownVariant(u8),
}

/// What decoding a value from the start of some bytes gives.
pub enum Decoded<T> {
    /// The value, and how many bytes it took.
    Done { value: T, len: nat },
    /// The bytes end before the value does.
    Short,
    /// The bytes are not an encoding of the expected value; the fault was
    /// found after reading the given number of bytes.
    Fail(Fault, nat),
}

impl<T> Decoded<T> {
    pub open spec fn map<U>(self, f: spec_fn(T) -> U) -> Decoded<U> {
        match self {
            Decoded::Done { value, len } => Decoded::Done { value: f(value), len },
            Decoded::Short => Decoded::Short,
            Decoded::Fail(x, n) => Decoded::Fail(x, n),
        }
    }
}

/// One byte.
pub open spec fn decode_u8(s: Seq<u8>) -> Decoded<u8> {
    if s.len() < 1 {
        Decoded::Short
    } else {
        Decoded::Done { value: s[0], len: 1 }
    }
}

/// `n` bytes, little-endian (`n` at most 8).
pub open spec fn decode_fixed(s: Seq<u8>, n: nat) -> Decoded<u64> {
    if s.len() < n {
        Decoded::Short
    } else {
        Decoded::Done { value: le_value(s.take(n as int)) as u64, len: n }
    }
}

/// A boolean byte.
pub open spec fn decode_bool(s: Seq<u8>) -> Decoded<bool> {
    if s.len() < 1 {
        Decoded::Short
    } else if s[0] == 0 {
        Decoded::Done { value: false, len: 1 }
    } else if s[0] == 1 {
        Decoded::Done { value: true, len: 1 }
    } else {
        Decoded::Fail(Fault::ExpectedBoolean(s[0]), 1)
    }
}

/// Whether `c` is a Unicode scalar value, that is, the code of a `char`.
pub open spec fn is_scalar(c: u32) -> bool {
    c <= 0x10FFFF && !(0xD800 <= c <= 0xDFFF)
}

/// A character, as its code point.
pub open spec fn decode_char(s: Seq<u8>) -> Decoded<u32> {
    match decode_fixed(s, 4) {
        Decoded::Done { value, len } => if is_scalar(value as u32) {
            Decoded::Done { value: value as u32, len }
        } else {
            Decoded::Fail(Fault::InvalidCharacter(value as u32), len)
        },
        Decoded::Short => Decoded::Short,
        Decoded::Fail(f, n) => Decoded::Fail(f, n),
    }
}

/// A compact integer.
pub open spec fn decode_compact(s: Seq<u8>) -> Decoded<u64> {
    match compact_read(s) {
        CompactRead::Value { value, len } => Decoded::Done { value, len },
        CompactRead::EndOfInput => Decoded::Short,
        CompactRead::OutOfRange(n) => Decoded::Fail(Fault::OutOfRange, n),
    }
}

/// A length: a compact integer that fits in `usize`.
pub open spec fn decode_len(s: Seq<u8>) -> Decoded<usize> {
    match decode_compact(s) {
        Decoded::Done { value, len } => if value <= usize::MAX {
            Decoded::Done { value: value as usize, len }
        } else {
            Decoded::Fail(Fault::OutOfRange, len)
        },
        Decoded::Short => Decoded::Short,
        Decoded::Fail(f, n) => Decoded::Fail(f, n),
    }
}

/// A byte string: a length, then that many bytes.
pub open spec fn decode_bytes(s: Seq<u8>) -> Decoded<Seq<u8>> {
    match decode_len(s) {
        Decoded::Done { value, len } => if s.len() < len + value {
            Decoded::Short
        } else {
            Decoded::Done {
                value: s.subrange(len as int, len + value),
                len: len + value as nat,
            }
        },
        Decoded::Short => Decoded::Short,
        Decoded::Fail(f, n) => Decoded::Fail(f, n),
    }
}

/// A string: a byte string that must be UTF-8.
pub open spec fn decode_str(s: Seq<u8>) -> Decoded<Seq<char>> {
    match decode_bytes(s) {
        Decoded::Done { value, len } => if valid_utf8(value) {
            Decoded::Done { value: decode_utf8(value), len }
        } else {
            Decoded::Fail(Fault::InvalidUnicode, len)
        },
        Decoded::Short => Decoded::Short,
        Decoded::Fail(f, n) => Decoded::Fail(f, n),
    }
}

/// The discriminant of an option: 0 (none), 1 or 2 (some).
pub open spec fn decode_option_tag(s: Seq<u8>) -> Decoded<u8> {
    if s.len() < 1 {
        Decoded::Short
    } else if s[0] <= 2 {
        Decoded::Done { value: s[0], len: 1 }
    } else {
        Decoded::Fail(Fault::InvalidOption(s[0]), 1)
    }
}


/// Reading `n` little-endian bytes, whatever follows them, gives back the
/// value they were written from.
pub proof fn lemma_decode_fixed_le(v: nat, n: nat, rest: Seq<u8>)
    requires
        v < pow256(n),
        n <= 8,
    ensures
        decode_fixed(le_bytes(v, n) + rest, n) == (Decoded::Done { value: v as u64, len: n }),
{
    lemma_le_bytes_len(v, n);
    assert((le_bytes(v, n) + rest).take(n as int) =~= le_bytes(v, n));
    lemma_le_value_of_bytes(v, n);
}

/// Reading a written byte string, whatever follows it, gives back its bytes.
pub proof fn lemma_decode_bytes_encoding(b: Seq<u8>, rest: Seq<u8>)
    requires
        b.len() <= usize::MAX,
    ensures
        decode_bytes(bytes_encoding(b) + rest) == (Decoded::Done {
            value: b,
            len: bytes_encoding(b).len(),
        }),
{
    let c = compact_encoding(b.len() as u64);
    let s = c + (b + rest);
    assert(bytes_encoding(b) + rest =~= s);
    lemma_compact_read_encoding(b.len() as u64, b + rest);
    assert(s.subrange(c.len() as int, (c.len() + b.len()) as int) =~= b);
}

/// Reading a written string, whatever follows it, gives back its characters.
pub proof fn lemma_decode_str_encoding(cs: Seq<char>, rest: Seq<u8>)
    requires
        encode_utf8(cs).len() <= usize::MAX,
    ensures
        decode_str(bytes_encoding(encode_utf8(cs)) + rest) == (Decoded::Done {
            value: cs,
            len: bytes_encoding(encode_utf8(cs)).len(),
        }),
{
    lemma_decode_bytes_encoding(encode_utf8(cs), rest);
    vstd::utf8::encode_utf8_valid_utf8(cs);
    vstd::utf8::encode_utf8_decode_utf8(cs);
}


/// Decoding result `e`, on the same bytes followed by more, is the result
/// `d` on the bytes alone, unless those ran out; and a value takes no more
/// than the `n` bytes there are.
pub open spec fn extends_to<T>(d: Decoded<T>, e: Decoded<T>, n: nat) -> bool {
    match d {
        Decoded::Short => true,
        Decoded::Done { len, .. } => len <= n && e == d,
        Decoded::Fail(_, len) => len <= n && e == d,
    }
}

pub proof fn lemma_u8_stable(s: Seq<u8>, rest: Seq<u8>)
    ensures
        extends_to(decode_u8(s), decode_u8(s + rest), s.len()),
        extends_to(decode_bool(s), decode_bool(s + rest), s.len()),
        extends_to(decode_option_tag(s), decode_option_tag(s + rest), s.len()),
{
    if s.len() >= 1 {
        assert((s + rest)[0] == s[0]);
    }
}

pub proof fn lemma_fixed_stable(s: Seq<u8>, n: nat, rest: Seq<u8>)
    ensures
        extends_to(decode_fixed(s, n), decode_fixed(s + rest, n), s.len()),
        n == 4 ==> extends_to(decode_char(s), decode_char(s + rest), s.len()),
{
    if s.len() >= n {
        assert((s + rest).take(n as int) =~= s.take(n as int));
    }
}

pub proof fn lemma_compact_stable(s: Seq<u8>, rest: Seq<u8>)
    ensures
        extends_to(decode_compact(s), decode_compact(s + rest), s.len()),
        extends_to(decode_len(s), decode_len(s + rest), s.len()),
{
    let t = s + rest;
    if s.len() >= 1 {
        assert(t[0] == s[0]);
        if s.len() >= 2 {
            assert(t[1] == s[1]);
        }
        if s.len() >= 4 {
            assert(t.subrange(1, 4) =~= s.subrange(1, 4));
        }
        let n = (s[0] / 4) as nat + 4;
        if n <= 8 && s.len() >= n + 1 {
            assert(t.subrange(1, n + 1 as int) =~= s.subrange(1, n + 1 as int));
        }
    }
}

pub proof fn lemma_bytes_stable(s: Seq<u8>, rest: Seq<u8>)
    ensures
        extends_to(decode_bytes(s), decode_bytes(s + rest), s.len()),
        extends_to(decode_str(s), decode_str(s + rest), s.len()),
{
    lemma_compact_stable(s, rest);
    match decode_len(s) {
        Decoded::Done { value, len } => {
            if s.len() >= len + value {
                assert((s + rest).subrange(len as int, len + value) =~= s.subrange(
                    len as int,
                    len + value,
                ));
            }
        },
        _ => {},
    }
}

} // verus!
