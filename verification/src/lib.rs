//! Reading and writing the two binary file formats of Elasto Mania:
//! level files (`.lev`) and replay files (`.rec`).
//!
//! Floating-point fields of the on-disk formats (positions, event times,
//! integrity sums) are carried as their IEEE-754 bit patterns (`u64` for
//! 64-bit values, `u32` for 32-bit values), so both codecs are bit-exact
//! byte transformations and are verified as such.

use vstd::prelude::*;

pub mod bits;
pub mod lev;
pub mod rec;

use vstd::utf8::is_ascii_chars;

verus! {

use vstd::arithmetic::div_mod::lemma_div_denominator;
use vstd::arithmetic::div_mod::lemma_fundamental_div_mod;

/// Makes `std::io::ErrorKind` usable in signatures; the value is opaque here.
#[verifier::external_type_specification]
#[verifier::external_body]
pub struct ExErrorKind(std::io::ErrorKind);

/// Errors produced by the codecs.
#[derive(Debug, PartialEq)]
pub enum ElmaError {
    /// Across files are not supported.
    AcrossUnsupported,
    /// Not a level file.
    InvalidLevelFile,
    /// Invalid gravity value.
    InvalidGravity(i32),
    /// Invalid object value.
    InvalidObject(i32),
    /// Invalid clipping value.
    InvalidClipping(i32),
    /// End-of-data marker mismatch.
    EODMismatch,
    /// End-of-file marker mismatch.
    EOFMismatch,
    /// Invalid event value.
    InvalidEvent(u8),
    /// End-of-replay marker mismatch.
    EORMismatch,
    /// Invalid time format.
    InvalidTimeFormat,
    /// Too short padding: the string is this many bytes longer than the field.
    PaddingTooShort(isize),
    /// String contains non-ASCII characters.
    NonASCII,
    /// Input/output errors, wrapped by their kind only.
    Io(std::io::ErrorKind),
    /// String decoding errors, with the number of valid bytes.
    StringFromUtf8(usize),
}

/// Shared position struct used in both sub-modules.
#[derive(Debug, Default, PartialEq, Clone, Copy)]
pub struct Position<T> {
    /// X-position.
    pub x: T,
    /// Y-position.
    pub y: T,
}

/// True when every byte has the high bit clear.
pub open spec fn ascii_bytes(b: Seq<u8>) -> bool {
    forall|i: int| 0 <= i < b.len() ==> b[i] < 128
}

/// The characters spelled by a sequence of ASCII bytes.
pub open spec fn chars_of_bytes(b: Seq<u8>) -> Seq<char> {
    Seq::new(b.len(), |i: int| b[i] as char)
}

/// The bytes spelling a sequence of ASCII characters.
pub open spec fn bytes_of_chars(s: Seq<char>) -> Seq<u8> {
    Seq::new(s.len(), |i: int| s[i] as u8)
}

/// Index of the first null byte, or the length when there is none.
pub open spec fn first_nul(b: Seq<u8>) -> int
    decreases b.len(),
{
    if b.len() == 0 {
        0
    } else if b[0] == 0 {
        0
    } else {
        1 + first_nul(b.drop_first())
    }
}

/// The bytes before the first null byte.
pub open spec fn cstr_prefix(b: Seq<u8>) -> Seq<u8> {
    b.take(first_nul(b))
}

/// What [`trim_string`] returns: the ASCII characters before the first null
/// byte, or `NonASCII` when a byte of that prefix has its high bit set.
pub open spec fn trim_spec(b: Seq<u8>) -> Result<Seq<char>, ElmaError> {
    if ascii_bytes(cstr_prefix(b)) {
        Ok(chars_of_bytes(cstr_prefix(b)))
    } else {
        Err(ElmaError::NonASCII)
    }
}

/// `first_nul` is the index of the first null byte (or the length).
pub proof fn lemma_first_nul(b: Seq<u8>)
    ensures
        0 <= first_nul(b) <= b.len(),
        forall|j: int| 0 <= j < first_nul(b) ==> b[j] != 0,
        first_nul(b) < b.len() ==> b[first_nul(b)] == 0,
    decreases b.len(),
{
    if b.len() == 0 {
    } else if b[0] == 0 {
    } else {
        lemma_first_nul(b.drop_first());
        assert forall|j: int| 0 <= j < first_nul(b) implies b[j] != 0 by {
            if j > 0 {
                assert(b.drop_first()[j - 1] != 0);
            }
        }
        if first_nul(b) < b.len() {
            assert(b.drop_first()[first_nul(b) - 1] == 0);
        }
    }
}

/// `first_nul` is the only index with the properties of `lemma_first_nul`.
pub proof fn lemma_first_nul_is(b: Seq<u8>, k: int)
    requires
        0 <= k <= b.len(),
        forall|j: int| 0 <= j < k ==> b[j] != 0,
        k < b.len() ==> b[k] == 0,
    ensures
        first_nul(b) == k,
    decreases b.len(),
{
    if b.len() == 0 {
    } else if b[0] == 0 {
    } else {
        assert forall|j: int| 0 <= j < k - 1 implies b.drop_first()[j] != 0 by {
            assert(b[j + 1] != 0);
        }
        lemma_first_nul_is(b.drop_first(), k - 1);
    }
}

/// Relies on `std::io::ErrorKind::UnexpectedEof` being a plain enum value;
/// it reports a buffer shorter than the structure it should hold.
#[verifier::external_body]
pub(crate) fn eof_error() -> (r: ElmaError)
    ensures
        r is Io,
{
    ElmaError::Io(std::io::ErrorKind::UnexpectedEof)
}

/// Relies on `String::from_utf8`: a sequence of ASCII bytes decodes to the
/// string whose characters have exactly those code points.
#[verifier::external_body]
fn ascii_bytes_to_string(bytes: Vec<u8>) -> (r: String)
    requires
        ascii_bytes(bytes@),
    ensures
        r@ == chars_of_bytes(bytes@),
{
    match String::from_utf8(bytes) {
        Ok(s) => s,
        Err(_) => String::new(),
    }
}

/// Trims trailing bytes after and including the first null byte.
///
/// All strings in Elasto Mania files are C-strings padded with null bytes;
/// this returns the ASCII text before the first null and rejects a prefix
/// holding a byte with the high bit set.
pub fn trim_string(data: &[u8]) -> (r: Result<String, ElmaError>)
    ensures
        match r {
            Ok(s) => trim_spec(data@) == Ok::<Seq<char>, ElmaError>(s@),
            Err(e) => trim_spec(data@) == Err::<Seq<char>, ElmaError>(e),
        },
{
    proof {
        lemma_first_nul(data@);
    }
    let len = data.len();
    let mut end: usize = 0;
    while end < len && data[end as usize] != 0
        invariant
            0 <= end <= len,
            len == data@.len(),
            forall|j: int| 0 <= j < end ==> data@[j] != 0,
        decreases len - end,
    {
        end = end + 1;
    }
    proof {
        lemma_first_nul_is(data@, end as int);
        assert(cstr_prefix(data@) =~= data@.take(end as int));
    }
    let mut prefix: Vec<u8> = Vec::new();
    let mut i: usize = 0;
    while i < end
        invariant
            0 <= i <= end <= len,
            len == data@.len(),
            first_nul(data@) == end,
            prefix@ =~= data@.take(i as int),
            ascii_bytes(prefix@),
        decreases end - i,
    {
        let b = data[i];
        if b >= 128 {
            proof {
                assert(cstr_prefix(data@) =~= data@.take(end as int));
                assert(cstr_prefix(data@)[i as int] == b);
                assert(!ascii_bytes(cstr_prefix(data@)));
            }
            return Err(ElmaError::NonASCII);
        }
        prefix.push(b);
        proof {
            assert(prefix@ =~= data@.take(i + 1 as int));
        }
        i = i + 1;
    }
    proof {
        assert(prefix@ =~= cstr_prefix(data@));
    }
    let s = ascii_bytes_to_string(prefix);
    Ok(s)
}

/// How far a string overruns its field, clipped to what `isize` can hold.
pub open spec fn pad_deficit(d: int) -> isize {
    if d <= isize::MAX {
        d as isize
    } else {
        isize::MAX
    }
}

/// What [`string_null_pad`] returns: the ASCII bytes of the string followed
/// by null padding up to `n` bytes, `NonASCII` for a character above 0x7F,
/// and `PaddingTooShort` with the overrun when the string does not fit.
pub open spec fn pad_spec(s: Seq<char>, n: int) -> Result<Seq<u8>, ElmaError> {
    if !is_ascii_chars(s) {
        Err(ElmaError::NonASCII)
    } else if s.len() > n {
        Err(ElmaError::PaddingTooShort(pad_deficit(s.len() - n)))
    } else {
        Ok(bytes_of_chars(s) + Seq::new((n - s.len()) as nat, |i: int| 0u8))
    }
}

/// Pads a string with null bytes to exactly `pad` bytes.
pub fn string_null_pad(name: &str, pad: usize) -> (r: Result<Vec<u8>, ElmaError>)
    ensures
        match r {
            Ok(v) => pad_spec(name@, pad as int) == Ok::<Seq<u8>, ElmaError>(v@),
            Err(e) => pad_spec(name@, pad as int) == Err::<Seq<u8>, ElmaError>(e),
        },
{
    broadcast use vstd::string::is_ascii_spec_bytes;

    if !name.is_ascii() {
        return Err(ElmaError::NonASCII);
    }
    let src = name.as_bytes();
    let n = src.len();
    proof {
        assert(src@ =~= bytes_of_chars(name@));
    }
    if n > pad {
        let over = n - pad;
        if over <= (isize::MAX as usize) {
            return Err(ElmaError::PaddingTooShort(over as isize));
        } else {
            return Err(ElmaError::PaddingTooShort(isize::MAX));
        }
    }
    let mut bytes: Vec<u8> = Vec::new();
    let mut i: usize = 0;
    while i < n
        invariant
            0 <= i <= n,
            n == src@.len(),
            src@ =~= bytes_of_chars(name@),
            bytes@ =~= src@.take(i as int),
        decreases n - i,
    {
        bytes.push(src[i]);
        proof {
            assert(bytes@ =~= src@.take(i + 1 as int));
        }
        i = i + 1;
    }
    while i < pad
        invariant
            n <= i <= pad,
            bytes@ =~= bytes_of_chars(name@) + Seq::new((i - n) as nat, |k: int| 0u8),
        decreases pad - i,
    {
        bytes.push(0);
        proof {
            assert(bytes@ =~= bytes_of_chars(name@) + Seq::new((i + 1 - n) as nat, |k: int| 0u8));
        }
        i = i + 1;
    }
    Ok(bytes)
}

/// The decimal digit bytes of `n`, most significant first.
pub open spec fn dec_digits(n: int) -> Seq<u8>
    decreases n,
{
    if 0 <= n <= 9 {
        seq![(48 + n) as u8]
    } else if n >= 10 {
        dec_digits(n / 10).push((48 + n % 10) as u8)
    } else {
        seq![48u8]
    }
}

/// The bytes of the decimal representation of `t`, sign included.
pub open spec fn dec_repr(t: int) -> Seq<u8> {
    if t < 0 {
        seq![45u8] + dec_digits(-t)
    } else {
        dec_digits(t)
    }
}

/// The template slot filled by the `k`-th byte from the end of the decimal
/// representation: positions 2 and 5 hold `':'` and `','` and are skipped.
pub open spec fn digit_slot_of(p: int) -> int {
    if p == 7 {
        0
    } else if p == 6 {
        1
    } else if p == 4 {
        2
    } else if p == 3 {
        3
    } else if p == 1 {
        4
    } else {
        5
    }
}

/// The eight bytes of the `00:00,00` template with the representation's
/// bytes right-aligned into the digit slots.
pub open spec fn placed_time(rep: Seq<u8>) -> Seq<u8> {
    Seq::new(
        8,
        |p: int|
            if p == 2 {
                58u8
            } else if p == 5 {
                44u8
            } else if digit_slot_of(p) < rep.len() {
                rep[rep.len() - 1 - digit_slot_of(p)]
            } else {
                48u8
            },
    )
}

/// The bytes of `"59:59,99"`, the clamp value for over-long times.
pub open spec fn max_time_bytes() -> Seq<u8> {
    seq![53u8, 57u8, 58u8, 53u8, 57u8, 44u8, 57u8, 57u8]
}

/// What [`time_format`] returns. A representation of more than six bytes
/// clamps to `"59:59,99"`; a leading minutes or seconds digit above `'5'`
/// is `InvalidTimeFormat`; otherwise the digits are placed into the
/// `MM:SS,HH` template.
pub open spec fn time_format_spec(t: int) -> Result<Seq<u8>, ElmaError> {
    let rep = dec_repr(t);
    if rep.len() > 6 {
        Ok(max_time_bytes())
    } else if rep.len() >= 4 && rep[rep.len() - 4] > 53 {
        Err(ElmaError::InvalidTimeFormat)
    } else if rep.len() == 6 && rep[0] > 53 {
        Err(ElmaError::InvalidTimeFormat)
    } else {
        Ok(placed_time(rep))
    }
}

/// Converts a time in hundredths of a second to the eight characters
/// `MM:SS,HH`, as the top-10 tables display it.
pub fn time_format(time: i32) -> (r: Result<String, ElmaError>)
    ensures
        match r {
            Ok(s) => time_format_spec(time as int) matches Ok(b) && s@ == chars_of_bytes(b),
            Err(e) => time_format_spec(time as int) == Err::<Seq<u8>, ElmaError>(e),
        },
{
    let ghost t = time as int;
    let mut m: u32 = if time < 0 {
        (-(time as i64)) as u32
    } else {
        time as u32
    };
    let ghost m0 = m as int;
    let mut rev: Vec<u8> = Vec::new();
    loop
        invariant_except_break
            m == 0 ==> rev@.len() == 0 && m0 == 0,
        invariant
            rev@.len() == 0 ==> m == m0,
            rev@.len() > 0 && m > 0 ==> dec_digits(m0) =~= dec_digits(m as int) + rev@.reverse(),
            forall|j: int| 0 <= j < rev@.len() ==> 48 <= #[trigger] rev@[j] <= 57,
        ensures
            rev@.len() > 0,
            dec_digits(m0) =~= rev@.reverse(),
            forall|j: int| 0 <= j < rev@.len() ==> 48 <= #[trigger] rev@[j] <= 57,
        decreases m as int,
    {
        let d = (48 + m % 10) as u8;
        let ghost prev = m as int;
        let ghost prev_rev = rev@;
        rev.push(d);
        m = m / 10;
        proof {
            assert(rev@.reverse() =~= seq![d] + prev_rev.reverse());
            if prev >= 10 {
                assert(dec_digits(prev) == dec_digits(prev / 10).push((48 + prev % 10) as u8));
                if prev_rev.len() == 0 {
                    assert(dec_digits(m0) =~= dec_digits(m as int) + rev@.reverse());
                } else {
                    assert(dec_digits(m0) =~= dec_digits(prev) + prev_rev.reverse());
                    assert(dec_digits(prev) + prev_rev.reverse() =~= dec_digits(m as int)
                        + rev@.reverse());
                }
            } else {
                assert(dec_digits(prev) =~= seq![d]);
                if prev_rev.len() == 0 {
                    assert(dec_digits(m0) =~= rev@.reverse());
                } else {
                    assert(prev > 0);
                    assert(dec_digits(m0) =~= dec_digits(prev) + prev_rev.reverse());
                    assert(dec_digits(prev) + prev_rev.reverse() =~= rev@.reverse());
                }
            }
        }
        if m == 0 {
            break ;
        }
    }
    if time < 0 {
        let ghost prev_rev = rev@;
        rev.push(45);
        proof {
            assert(rev@.reverse() =~= seq![45u8] + prev_rev.reverse());
            assert(dec_repr(t) =~= rev@.reverse());
        }
    }
    proof {
        assert(dec_repr(t) =~= rev@.reverse());
        assert(forall|k: int|
            0 <= k < rev@.len() ==> dec_repr(t)[dec_repr(t).len() - 1 - k] == rev@[k]);
    }
    let l = rev.len();
    if l > 6 {
        let mut out: Vec<u8> = Vec::new();
        out.push(53);
        out.push(57);
        out.push(58);
        out.push(53);
        out.push(57);
        out.push(44);
        out.push(57);
        out.push(57);
        proof {
            assert(out@ =~= max_time_bytes());
        }
        let s = ascii_bytes_to_string(out);
        return Ok(s);
    }
    if l >= 4 && rev[3] > 53 {
        return Err(ElmaError::InvalidTimeFormat);
    }
    if l == 6 && rev[5] > 53 {
        return Err(ElmaError::InvalidTimeFormat);
    }
    let mut out: Vec<u8> = Vec::new();
    out.push(if l >= 6 { rev[5] } else { 48 });
    out.push(if l >= 5 { rev[4] } else { 48 });
    out.push(58);
    out.push(if l >= 4 { rev[3] } else { 48 });
    out.push(if l >= 3 { rev[2] } else { 48 });
    out.push(44);
    out.push(if l >= 2 { rev[1] } else { 48 });
    out.push(rev[0]);
    proof {
        assert(out@ =~= placed_time(dec_repr(t)));
        assert(ascii_bytes(out@));
    }
    let s = ascii_bytes_to_string(out);
    Ok(s)
}

/// 10 to the power `k` (1 for `k <= 0`).
pub open spec fn pow10(k: int) -> int
    decreases k,
{
    if k <= 0 {
        1
    } else {
        10 * pow10(k - 1)
    }
}

proof fn lemma_pow10_pos(k: int)
    ensures
        pow10(k) >= 1,
    decreases k,
{
    if k > 0 {
        lemma_pow10_pos(k - 1);
    }
}

proof fn lemma_pow10_mono(a: int, b: int)
    requires
        a <= b,
    ensures
        pow10(a) <= pow10(b),
    decreases b - a,
{
    if a < b {
        lemma_pow10_mono(a, b - 1);
        lemma_pow10_pos(b - 1);
    }
}

/// Each byte of `dec_digits(n)` spells the matching decimal digit of `n`,
/// counting from the least significant end.
proof fn lemma_dec_digits_spell(n: int)
    requires
        n >= 0,
    ensures
        dec_digits(n).len() >= 1,
        n < pow10(dec_digits(n).len() as int),
        n >= 1 ==> n >= pow10(dec_digits(n).len() - 1),
        forall|k: int|
            0 <= k < dec_digits(n).len() ==> dec_digits(n)[dec_digits(n).len() - 1 - k] == 48 + (n
                / pow10(k)) % 10,
    decreases n,
{
    let rep = dec_digits(n);
    let l = rep.len() as int;
    if n <= 9 {
        assert(rep =~= seq![(48 + n) as u8]);
        assert(pow10(1) == 10);
    } else {
        lemma_dec_digits_spell(n / 10);
        let rep0 = dec_digits(n / 10);
        let l0 = rep0.len() as int;
        assert(rep == rep0.push((48 + n % 10) as u8));
        lemma_fundamental_div_mod(n, 10);
        assert(n < pow10(l)) by {
            assert(n / 10 <= pow10(l0) - 1);
            assert(10 * (n / 10) <= 10 * (pow10(l0) - 1));
            assert(pow10(l0 + 1) == 10 * pow10(l0));
        }
        assert(n >= pow10(l - 1)) by {
            assert(n / 10 >= pow10(l0 - 1));
            assert(10 * (n / 10) >= 10 * pow10(l0 - 1));
            assert(pow10(l0) == 10 * pow10(l0 - 1));
        }
        assert forall|k: int| 0 <= k < l implies rep[l - 1 - k] == 48 + (n / pow10(k)) % 10 by {
            if k == 0 {
                assert(rep[l - 1] == (48 + n % 10) as u8);
            } else {
                assert(rep[l - 1 - k] == rep0[l0 - 1 - (k - 1)]);
                lemma_pow10_pos(k - 1);
                lemma_div_denominator(n, 10, pow10(k - 1));
                assert(pow10(k) == 10 * pow10(k - 1));
            }
        }
    }
}

/// The time a formatted string reads back to, taking the digit slots of
/// `MM:SS,HH` positionally.
pub open spec fn time_parse_back(b: Seq<u8>) -> int {
    (b[0] - 48) * 100000 + (b[1] - 48) * 10000 + (b[3] - 48) * 1000 + (b[4] - 48) * 100 + (b[6]
        - 48) * 10 + (b[7] - 48)
}

/// Formatting a time and reading the string back yields the time again:
/// holds for every `t` from 0 through 999999 whose minutes and seconds
/// fields both begin with a digit of at most five.
pub proof fn lemma_time_format_round_trip(t: int)
    requires
        0 <= t <= 999999,
        (t / 1000) % 10 <= 5,
        (t / 100000) % 10 <= 5,
    ensures
        time_format_spec(t) is Ok,
        time_parse_back(time_format_spec(t)->Ok_0) == t,
{
    let rep = dec_repr(t);
    lemma_dec_digits_spell(t);
    let l = rep.len() as int;
    assert(pow10(0) == 1);
    assert(pow10(1) == 10);
    assert(pow10(2) == 100);
    assert(pow10(3) == 1000);
    assert(pow10(4) == 10000);
    assert(pow10(5) == 100000);
    assert(pow10(6) == 1000000);
    if l > 6 {
        lemma_pow10_mono(6, l - 1);
        assert(false);
    }
    if l >= 4 {
        assert(rep[l - 4] == 48 + (t / pow10(3)) % 10);
    }
    if l == 6 {
        assert(rep[0] == 48 + (t / pow10(5)) % 10);
    }
    let b = placed_time(rep);
    assert(time_format_spec(t) == Ok::<Seq<u8>, ElmaError>(b));
    assert forall|k: int| 0 <= k < 6 && k >= l implies (t / pow10(k)) % 10 == 0 by {
        lemma_pow10_mono(l, k);
        lemma_pow10_pos(l);
        assert(t < pow10(k));
        assert(t / pow10(k) == 0) by {
            vstd::arithmetic::div_mod::lemma_basic_div(t, pow10(k));
        }
    }
    let d0 = (t / pow10(0)) % 10;
    let d1 = (t / pow10(1)) % 10;
    let d2 = (t / pow10(2)) % 10;
    let d3 = (t / pow10(3)) % 10;
    let d4 = (t / pow10(4)) % 10;
    let d5 = (t / pow10(5)) % 10;
    assert(b[7] == 48 + d0 && b[6] == 48 + d1 && b[4] == 48 + d2 && b[3] == 48 + d3 && b[1] == 48
        + d4 && b[0] == 48 + d5);
    let q1 = t / 10;
    let q2 = t / 100;
    let q3 = t / 1000;
    let q4 = t / 10000;
    let q5 = t / 100000;
    lemma_div_denominator(t, 10, 10);
    lemma_div_denominator(t, 100, 10);
    lemma_div_denominator(t, 1000, 10);
    lemma_div_denominator(t, 10000, 10);
    lemma_div_denominator(t, 100000, 10);
    lemma_fundamental_div_mod(t, 10);
    lemma_fundamental_div_mod(q1, 10);
    lemma_fundamental_div_mod(q2, 10);
    lemma_fundamental_div_mod(q3, 10);
    lemma_fundamental_div_mod(q4, 10);
    lemma_fundamental_div_mod(q5, 10);
    assert(t / 1000000 == 0) by {
        vstd::arithmetic::div_mod::lemma_basic_div(t, 1000000);
    }
    assert(time_parse_back(b) == t);
}

/// Padding then trimming returns the original string: for every ASCII
/// string without an embedded null that fits its field, `string_null_pad`
/// succeeds and `trim_string` of its output gives the string back.
pub proof fn lemma_pad_trim_round_trip(s: Seq<char>, n: int)
    requires
        is_ascii_chars(s),
        s.len() <= n,
        forall|i: int| 0 <= i < s.len() ==> s[i] != '\0',
    ensures
        pad_spec(s, n) is Ok,
        trim_spec(pad_spec(s, n).unwrap()) == Ok::<Seq<char>, ElmaError>(s),
{
    let b = pad_spec(s, n).unwrap();
    assert(b =~= bytes_of_chars(s) + Seq::new((n - s.len()) as nat, |i: int| 0u8));
    assert forall|j: int| 0 <= j < s.len() implies b[j] != 0 by {
        assert(b[j] == s[j] as u8);
        assert('\0' <= s[j] <= '\u{7f}');
    }
    if s.len() < n {
        assert(b[s.len() as int] == 0);
    }
    lemma_first_nul_is(b, s.len() as int);
    assert(cstr_prefix(b) =~= bytes_of_chars(s));
    assert forall|j: int| 0 <= j < s.len() implies chars_of_bytes(cstr_prefix(b))[j] == s[j] by {
        assert('\0' <= s[j] <= '\u{7f}');
        assert((s[j] as u8) as char == s[j]);
    }
    assert(chars_of_bytes(cstr_prefix(b)) =~= s);
    assert(ascii_bytes(cstr_prefix(b)));
}

} // verus!
