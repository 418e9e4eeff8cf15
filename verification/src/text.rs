//! Text for the console, as bytes: decimal and hexadecimal numbers, padding and
//! plain strings.
use vstd::prelude::*;

verus! {

/// The UTF-8 bytes of a string.
pub open spec fn utf8(s: &str) -> Seq<u8> {
    vstd::utf8::encode_utf8(s@)
}

/// `n` in decimal.
pub open spec fn decimal(n: nat) -> Seq<u8>
    decreases n,
{
    if n < 10 {
        seq![(0x30 + n) as u8]
    } else {
        decimal(n / 10).push((0x30 + n % 10) as u8)
    }
}

/// The digit for a value below sixteen.
pub open spec fn hex_digit(v: nat, upper: bool) -> u8 {
    if v < 10 {
        (0x30 + v) as u8
    } else if upper {
        (0x41 + v - 10) as u8
    } else {
        (0x61 + v - 10) as u8
    }
}

/// The last `width` hexadecimal digits of `n`.
pub open spec fn hex(n: nat, width: nat, upper: bool) -> Seq<u8>
    decreases width,
{
    if width == 0 {
        Seq::empty()
    } else {
        hex(n / 16, (width - 1) as nat, upper).push(hex_digit(n % 16, upper))
    }
}

/// `n` spaces.
pub open spec fn spaces(n: int) -> Seq<u8> {
    Seq::new(
        if n > 0 {
            n as nat
        } else {
            0
        },
        |i: int| 0x20u8,
    )
}

/// Appends bytes.
pub fn push_bytes(out: &mut Vec<u8>, bytes: &[u8])
    ensures
        final(out)@ == old(out)@ + bytes@,
{
    let ghost before = out@;
    let n: usize = bytes.len();
    for i in 0..n
        invariant
            n == bytes@.len(),
            out@ == before + bytes@.take(i as int),
    {
        assert(bytes@.take(i + 1) =~= bytes@.take(i as int).push(bytes@[i as int]));
        out.push(bytes[i]);
        assert(out@ =~= before + bytes@.take(i + 1));
    }
    assert(bytes@.take(n as int) =~= bytes@);
}

/// Appends a string.
pub fn push_str(out: &mut Vec<u8>, s: &str)
    ensures
        final(out)@ == old(out)@ + utf8(s),
{
    push_bytes(out, s.as_bytes());
}

/// Appends a number in decimal.
pub fn push_decimal(out: &mut Vec<u8>, n: u64)
    ensures
        final(out)@ == old(out)@ + decimal(n as nat),
    decreases n,
{
    let ghost before = out@;
    if n >= 10 {
        push_decimal(out, n / 10);
        assert(before + decimal(n as nat) =~= (before + decimal((n / 10) as nat)).push(
            (0x30 + n % 10) as u8,
        ));
    }
    out.push(0x30u8 + (n % 10) as u8);
}

/// Appends the last `width` hexadecimal digits of a number.
pub fn push_hex(out: &mut Vec<u8>, n: u64, width: u32, upper: bool)
    ensures
        final(out)@ == old(out)@ + hex(n as nat, width as nat, upper),
    decreases width,
{
    let ghost before = out@;
    if width > 0 {
        push_hex(out, n / 16, width - 1, upper);
        let v: u8 = (n % 16) as u8;
        let digit: u8 = if v < 10 {
            0x30 + v
        } else if upper {
            0x41 + (v - 10)
        } else {
            0x61 + (v - 10)
        };
        assert(before + hex(n as nat, width as nat, upper) =~= (before + hex(
            (n / 16) as nat,
            (width - 1) as nat,
            upper,
        )).push(digit));
        out.push(digit);
    } else {
        assert(before + hex(n as nat, 0, upper) =~= before);
    }
}

/// Appends `n` spaces.
pub fn push_spaces(out: &mut Vec<u8>, n: usize)
    ensures
        final(out)@ == old(out)@ + spaces(n as int),
{
    let ghost before = out@;
    for i in 0..n
        invariant
            out@ == before + spaces(i as int),
    {
        assert(spaces(i + 1) =~= spaces(i as int).push(0x20));
        out.push(0x20);
        assert(out@ =~= before + spaces(i + 1));
    }
}

/// The UTF-8 bytes of the character whose code is `c`.
pub open spec fn latin1(c: u8) -> Seq<u8> {
    vstd::utf8::encode_utf8(seq![c as char])
}

/// Appends the character whose code is `c`, in UTF-8.
pub fn push_latin1(out: &mut Vec<u8>, c: u8)
    ensures
        final(out)@ == old(out)@ + latin1(c),
{
    let ghost before = out@;
    proof {
        reveal_with_fuel(vstd::utf8::encode_utf8, 2);
        assert(seq![c as char].drop_first() =~= Seq::empty());
    }
    let ghost w = c as u32;
    assert(c < 0x80 ==> (w & 0x7F) as u8 == c) by (bit_vector)
        requires
            w == c as u32,
    ;
    assert((0xC0u8 | ((w >> 6) & 0x1F) as u8) == (0xC0u8 | (c >> 6))) by (bit_vector)
        requires
            w == c as u32,
    ;
    assert((0x80u8 | (w & 0x3F) as u8) == (0x80u8 | (c & 0x3F))) by (bit_vector)
        requires
            w == c as u32,
    ;
    if c < 0x80 {
        out.push(c);
        assert(out@ =~= before + seq![c]);
        assert(latin1(c) =~= seq![c]);
    } else {
        out.push(0xC0 | (c >> 6));
        out.push(0x80 | (c & 0x3F));
        assert(latin1(c) =~= seq![0xC0 | (c >> 6), 0x80 | (c & 0x3F)]);
        assert(out@ =~= before + latin1(c));
    }
}

/// Whether two byte strings are equal.
pub fn same_bytes(a: &[u8], b: &[u8]) -> (r: bool)
    ensures
        r == (a@ == b@),
{
    if a.len() != b.len() {
        return false;
    }
    let n: usize = a.len();
    for i in 0..n
        invariant
            n == a@.len() == b@.len(),
            forall|j: int| 0 <= j < i ==> a@[j] == b@[j],
    {
        if a[i] != b[i] {
            return false;
        }
    }
    assert(a@ =~= b@);
    true
}

// ── Reading back ───────────────────────────────────────────────────────────

/// What a reader takes a decimal digit for; -1 where it is none.
pub open spec fn decimal_digit_value(c: u8) -> int {
    if '0' as int <= c <= '9' as int {
        c - '0' as int
    } else {
        -1
    }
}

/// What a reader takes a hexadecimal digit for; -1 where it is none.
pub open spec fn hex_digit_value(c: u8) -> int {
    if '0' as int <= c <= '9' as int {
        c - '0' as int
    } else if 'A' as int <= c <= 'F' as int {
        10 + (c - 'A' as int)
    } else if 'a' as int <= c <= 'f' as int {
        10 + (c - 'a' as int)
    } else {
        -1
    }
}

/// The number that decimal digits stand for.
pub open spec fn decimal_value(s: Seq<u8>) -> int
    decreases s.len(),
{
    if s.len() == 0 {
        0
    } else {
        10 * decimal_value(s.drop_last()) + decimal_digit_value(s.last())
    }
}

/// The number that hexadecimal digits stand for.
pub open spec fn hex_value(s: Seq<u8>) -> int
    decreases s.len(),
{
    if s.len() == 0 {
        0
    } else {
        16 * hex_value(s.drop_last()) + hex_digit_value(s.last())
    }
}

/// A number in decimal is made of digits, has no zero in front, and is read back.
pub proof fn lemma_decimal_reads_back(n: nat)
    ensures
        decimal_value(decimal(n)) == n,
        decimal(n).len() > 0,
        decimal(n).len() > 1 ==> decimal(n)[0] != '0' as u8,
        forall|i: int| 0 <= i < decimal(n).len() ==> decimal_digit_value(#[trigger] decimal(n)[i]) >= 0,
    decreases n,
{
    if n < 10 {
        assert(decimal(n).drop_last() =~= Seq::empty());
        assert(decimal_value(decimal(n).drop_last()) == 0);
    } else {
        lemma_decimal_reads_back(n / 10);
        let d = (0x30 + n % 10) as u8;
        assert(decimal(n).drop_last() =~= decimal(n / 10));
        assert(decimal(n).last() == d);
        if decimal(n / 10).len() == 1 {
            reveal_with_fuel(decimal_value, 2);
            assert(decimal(n / 10).drop_last() =~= Seq::empty());
        }
    }
}

/// The last digits of a number are read back as what is left when it is divided by
/// the power of sixteen.
pub proof fn lemma_hex_reads_back(n: nat, width: nat, upper: bool)
    ensures
        hex(n, width, upper).len() == width,
        hex_value(hex(n, width, upper)) == n as int % vstd::arithmetic::power::pow(16, width),
        forall|i: int|
            0 <= i < width ==> hex_digit_value(#[trigger] hex(n, width, upper)[i]) >= 0,
    decreases width,
{
    vstd::arithmetic::power::lemma_pow0(16);
    if width > 0 {
        let w = (width - 1) as nat;
        lemma_hex_reads_back(n / 16, w, upper);
        let all = hex(n, width, upper);
        let m = vstd::arithmetic::power::pow(16, w);
        assert(all.drop_last() =~= hex(n / 16, w, upper));
        vstd::arithmetic::power::lemma_pow1(16);
        vstd::arithmetic::power::lemma_pow_adds(16, w, 1);
        vstd::arithmetic::power::lemma_pow_positive(16, w);
        vstd::arithmetic::div_mod::lemma_mod_breakdown(n as int, 16, m);
        assert(16 * m == m * 16) by (nonlinear_arith);
        assert(hex_digit_value(hex_digit(n % 16, upper)) == n % 16);
    }
}

/// Sixteen digits hold every 64-bit number.
pub proof fn lemma_hex64_reads_back(v: u64, upper: bool)
    ensures
        hex(v as nat, 16, upper).len() == 16,
        hex_value(hex(v as nat, 16, upper)) == v,
{
    lemma_hex_reads_back(v as nat, 16, upper);
    lemma_pow16();
    vstd::arithmetic::div_mod::lemma_small_mod(v as nat, 0x1_0000_0000_0000_0000);
}

/// Powers of sixteen.
pub proof fn lemma_pow16()
    ensures
        vstd::arithmetic::power::pow(16, 2) == 0x100,
        vstd::arithmetic::power::pow(16, 4) == 0x1_0000,
        vstd::arithmetic::power::pow(16, 6) == 0x100_0000,
        vstd::arithmetic::power::pow(16, 8) == 0x1_0000_0000,
        vstd::arithmetic::power::pow(16, 16) == 0x1_0000_0000_0000_0000,
{
    reveal(vstd::arithmetic::power::pow);
    reveal_with_fuel(vstd::arithmetic::power::pow, 3);
    vstd::arithmetic::power::lemma_pow_adds(16, 2, 2);
    vstd::arithmetic::power::lemma_pow_adds(16, 4, 2);
    vstd::arithmetic::power::lemma_pow_adds(16, 4, 4);
    vstd::arithmetic::power::lemma_pow_adds(16, 8, 8);
    assert(vstd::arithmetic::power::pow(16, 2) == 0x100);
    let m = vstd::arithmetic::power::pow(16, 8);
    assert(m * m == 0x1_0000_0000_0000_0000) by (nonlinear_arith)
        requires
            m == 0x1_0000_0000,
    ;
}

/// The character of a code is its UTF-8 encoding.
pub proof fn lemma_latin1_is_utf8(c: u8)
    ensures
        latin1(c) == vstd::utf8::encode_utf8(seq![c as char]),
{
}

} // verus!
