//! Byte and string primitives shared by the rest of the library.
//!
//! A `&str` is seen as the sequence of its characters (`s@`) where only equality
//! matters, and as the sequence of its UTF-8 bytes (`s.spec_bytes()`) where the
//! text is taken apart.

use vstd::prelude::*;
use vstd::slice::slice_subrange;
use vstd::std_specs::iter::IteratorSpec;
use vstd::string::{StrSliceExecFns, StringSliceAdditionalSpecFns};
use vstd::utf8::{
    decode_first_codepoint, decode_utf8, encode_utf8, is_char_boundary, is_continuation_byte,
    is_leading_byte_width_1, length_of_first_scalar, pop_first_scalar, valid_first_scalar,
    valid_utf8,
};

verus! {

/// Lower-case form of an ASCII letter; every other byte is unchanged.
pub open spec fn lower_byte(b: u8) -> u8 {
    if 65 <= b && b <= 90 {
        (b + 32) as u8
    } else {
        b
    }
}

/// Lower-case form of a byte string, byte by byte.
pub open spec fn lower_bytes(s: Seq<u8>) -> Seq<u8> {
    s.map_values(|b: u8| lower_byte(b))
}

/// Equality up to the case of ASCII letters.
pub open spec fn same_ignoring_case(a: Seq<u8>, b: Seq<u8>) -> bool {
    lower_bytes(a) == lower_bytes(b)
}

/// `part` stands in `s` at position `at`.
pub open spec fn occurs_at(s: Seq<u8>, part: Seq<u8>, at: int) -> bool {
    0 <= at && at + part.len() <= s.len() && s.subrange(at, at + part.len()) == part
}

/// `part` stands somewhere in `s`.
pub open spec fn occurs(s: Seq<u8>, part: Seq<u8>) -> bool {
    exists|at: int| occurs_at(s, part, at)
}

/// The byte `b` stands somewhere in `s`.
pub open spec fn has_byte(s: Seq<u8>, b: u8) -> bool {
    exists|i: int| 0 <= i < s.len() && s[i] == b
}

pub open spec fn is_digit(b: u8) -> bool {
    48 <= b && b <= 57
}

/// A non-empty run of decimal digits.
pub open spec fn is_decimal(s: Seq<u8>) -> bool {
    s.len() > 0 && forall|i: int| 0 <= i < s.len() ==> is_digit(#[trigger] s[i])
}

/// The number that a run of decimal digits writes.
pub open spec fn decimal_value(s: Seq<u8>) -> nat
    decreases s.len(),
{
    if s.len() == 0 {
        0
    } else {
        decimal_value(s.drop_last()) * 10 + (s.last() - 48) as nat
    }
}

/// Number text: decimal digits, with one optional leading `+`.
pub open spec fn number_text(s: Seq<u8>) -> Option<nat> {
    let digits = if s.len() > 0 && s[0] == 43 {
        s.skip(1)
    } else {
        s
    };
    if is_decimal(digits) {
        Some(decimal_value(digits))
    } else {
        None
    }
}

/// The pieces between the separators, one more than there are separators.
pub open spec fn split_on(s: Seq<u8>, sep: u8) -> Seq<Seq<u8>>
    decreases s.len(),
{
    if s.len() == 0 {
        seq![Seq::<u8>::empty()]
    } else {
        let front = split_on(s.drop_last(), sep);
        if s.last() == sep {
            front.push(Seq::<u8>::empty())
        } else {
            front.drop_last().push(front.last().push(s.last()))
        }
    }
}

/// The byte strings that owned buffers hold.
pub open spec fn byte_views(v: Seq<Vec<u8>>) -> Seq<Seq<u8>> {
    v.map_values(|p: Vec<u8>| p@)
}

/// There is always at least one piece.
pub proof fn lemma_split_nonempty(s: Seq<u8>, sep: u8)
    ensures
        split_on(s, sep).len() > 0,
    decreases s.len(),
{
    if s.len() > 0 {
        lemma_split_nonempty(s.drop_last(), sep);
    }
}

/// Two texts with the same UTF-8 bytes are the same text.
pub proof fn lemma_bytes_determine_text(a: Seq<char>, b: Seq<char>)
    ensures
        encode_utf8(a) == encode_utf8(b) ==> a == b,
{
    vstd::utf8::encode_utf8_decode_utf8(a);
    vstd::utf8::encode_utf8_decode_utf8(b);
}

/// Both sides of an ASCII byte are character boundaries.
pub proof fn lemma_ascii_boundary(b: Seq<u8>, i: int)
    requires
        valid_utf8(b),
        0 <= i < b.len(),
        b[i] < 128,
    ensures
        is_char_boundary(b, i),
        is_char_boundary(b, i + 1),
{
    vstd::utf8::is_char_boundary_iff_not_is_continuation_byte(b, i);
    vstd::utf8::valid_utf8_split(b, i);
    let tail = b.subrange(i, b.len() as int);
    assert(tail[0] == b[i]);
    assert(valid_first_scalar(tail));
    let rest = pop_first_scalar(tail);
    assert(rest =~= b.subrange(i + 1, b.len() as int));
    assert(valid_utf8(tail) && valid_utf8(rest));
    if i + 1 < b.len() {
        assert(valid_first_scalar(rest));
        assert(rest[0] == b[i + 1]);
        assert(!is_continuation_byte(b[i + 1]));
        vstd::utf8::is_char_boundary_iff_not_is_continuation_byte(b, i + 1);
    } else {
        vstd::utf8::is_char_boundary_start_end_of_seq(b);
    }
}

/// A boundary of a text is a boundary of each longer prefix that ends at a boundary.
pub proof fn lemma_boundary_in_prefix(b: Seq<u8>, from: int, to: int)
    requires
        valid_utf8(b),
        0 <= from <= to <= b.len(),
        is_char_boundary(b, from),
        is_char_boundary(b, to),
    ensures
        valid_utf8(b.subrange(0, to)),
        is_char_boundary(b.subrange(0, to), from),
{
    vstd::utf8::valid_utf8_split(b, to);
    let head = b.subrange(0, to);
    if from < to {
        vstd::utf8::is_char_boundary_iff_not_is_continuation_byte(b, from);
        assert(head[from] == b[from]);
        vstd::utf8::is_char_boundary_iff_not_is_continuation_byte(head, from);
    } else {
        vstd::utf8::is_char_boundary_start_end_of_seq(head);
    }
}

/// Lower-casing ASCII letters keeps a byte string valid UTF-8.
pub proof fn lemma_lower_keeps_utf8(b: Seq<u8>)
    requires
        valid_utf8(b),
    ensures
        valid_utf8(lower_bytes(b)),
    decreases b.len(),
{
    let l = lower_bytes(b);
    if b.len() > 0 {
        let n = length_of_first_scalar(b);
        if is_leading_byte_width_1(b[0]) {
            let c: u8 = l[0];
            assert(c <= 0x7f ==> (c & 0x7f) as u32 == c as u32) by (bit_vector);
            assert(decode_first_codepoint(l) == c as u32);
        } else {
            assert(forall|i: int| 0 <= i < n ==> #[trigger] l[i] == b[i]);
            assert(decode_first_codepoint(l) == decode_first_codepoint(b));
        }
        assert(valid_first_scalar(l));
        assert(pop_first_scalar(l) =~= lower_bytes(pop_first_scalar(b)));
        lemma_lower_keeps_utf8(pop_first_scalar(b));
    }
}

/// A longer run of digits never writes a smaller number.
pub proof fn lemma_decimal_prefix_le(s: Seq<u8>, n: int)
    requires
        is_decimal(s),
        0 <= n <= s.len(),
    ensures
        decimal_value(s.take(n)) <= decimal_value(s),
    decreases s.len() - n,
{
    if n < s.len() {
        lemma_decimal_prefix_le(s, n + 1);
        assert(s.take(n + 1).drop_last() =~= s.take(n));
        assert(s.take(n + 1).last() == s[n]);
    } else {
        assert(s.take(n) =~= s);
    }
}

pub fn lower(b: u8) -> (r: u8)
    ensures
        r == lower_byte(b),
{
    if 65 <= b && b <= 90 {
        b + 32
    } else {
        b
    }
}

/// Lower-case copy of a byte string.
pub fn to_lower(s: &[u8]) -> (r: Vec<u8>)
    ensures
        r@ == lower_bytes(s@),
{
    let mut out: Vec<u8> = Vec::with_capacity(s.len());
    let mut i: usize = 0;
    while i < s.len()
        invariant
            i <= s@.len(),
            out@ == lower_bytes(s@).take(i as int),
        decreases s@.len() - i,
    {
        out.push(lower(s[i]));
        proof {
            assert(out@ =~= lower_bytes(s@).take(i + 1));
        }
        i += 1;
    }
    proof {
        assert(out@ =~= lower_bytes(s@));
    }
    out
}

/// Byte-wise equality.
pub fn bytes_eq(a: &[u8], b: &[u8]) -> (r: bool)
    ensures
        r == (a@ == b@),
{
    if a.len() != b.len() {
        return false;
    }
    let mut i: usize = 0;
    while i < a.len()
        invariant
            a@.len() == b@.len(),
            i <= a@.len(),
            forall|j: int| 0 <= j < i ==> a@[j] == b@[j],
        decreases a@.len() - i,
    {
        if a[i] != b[i] {
            return false;
        }
        i += 1;
    }
    assert(a@ =~= b@);
    true
}

/// Text equality.
pub fn str_eq(a: &str, b: &str) -> (r: bool)
    ensures
        r == (a@ == b@),
{
    proof {
        lemma_bytes_determine_text(a@, b@);
    }
    bytes_eq(a.as_bytes(), b.as_bytes())
}

/// Equality up to the case of ASCII letters.
pub fn eq_ignore_ascii_case(a: &[u8], b: &[u8]) -> (r: bool)
    ensures
        r == same_ignoring_case(a@, b@),
{
    if a.len() != b.len() {
        proof {
            assert(lower_bytes(a@).len() != lower_bytes(b@).len());
        }
        return false;
    }
    let mut i: usize = 0;
    while i < a.len()
        invariant
            a@.len() == b@.len(),
            i <= a@.len(),
            forall|j: int| 0 <= j < i ==> lower_byte(a@[j]) == lower_byte(b@[j]),
        decreases a@.len() - i,
    {
        if lower(a[i]) != lower(b[i]) {
            proof {
                assert(lower_bytes(a@)[i as int] != lower_bytes(b@)[i as int]);
            }
            return false;
        }
        i += 1;
    }
    assert(lower_bytes(a@) =~= lower_bytes(b@));
    true
}

/// Whether `s` begins with `prefix`.
pub fn has_prefix(s: &[u8], prefix: &[u8]) -> (r: bool)
    ensures
        r == prefix@.is_prefix_of(s@),
{
    if s.len() < prefix.len() {
        return false;
    }
    let r = bytes_eq(slice_subrange(s, 0, prefix.len()), prefix);
    r
}

/// Whether `s` ends with `suffix`.
pub fn has_suffix(s: &[u8], suffix: &[u8]) -> (r: bool)
    ensures
        r == suffix@.is_suffix_of(s@),
{
    if s.len() < suffix.len() {
        return false;
    }
    let r = bytes_eq(slice_subrange(s, s.len() - suffix.len(), s.len()), suffix);
    r
}

/// The first position of byte `b` in `s` at or after `from`.
pub fn find_byte(s: &[u8], b: u8, from: usize) -> (r: Option<usize>)
    requires
        from <= s@.len(),
    ensures
        match r {
            Some(i) => from <= i < s@.len() && s@[i as int] == b && forall|j: int|
                from <= j < i ==> s@[j] != b,
            None => forall|j: int| from <= j < s@.len() ==> s@[j] != b,
        },
{
    let mut i: usize = from;
    while i < s.len()
        invariant
            from <= i <= s@.len(),
            forall|j: int| from <= j < i ==> s@[j] != b,
        decreases s@.len() - i,
    {
        if s[i] == b {
            return Some(i);
        }
        i += 1;
    }
    None
}

/// Whether `part` stands somewhere in `s`.
pub fn contains_bytes(s: &[u8], part: &[u8]) -> (r: bool)
    ensures
        r == occurs(s@, part@),
{
    if s.len() < part.len() {
        return false;
    }
    let last: usize = s.len() - part.len();
    let mut i: usize = 0;
    while i <= last
        invariant
            last == s@.len() - part@.len(),
            i <= last + 1,
            forall|j: int| 0 <= j < i ==> !occurs_at(s@, part@, j),
        decreases last + 1 - i,
    {
        assert(i + part.len() <= s.len());
        if bytes_eq(slice_subrange(s, i, i + part.len()), part) {
            assert(occurs_at(s@, part@, i as int));
            return true;
        }
        if i == last {
            assert forall|at: int| !occurs_at(s@, part@, at) by {
                if occurs_at(s@, part@, at) {
                    assert(0 <= at <= last);
                }
            }
            return false;
        }
        i += 1;
    }
    false
}

/// Whether `s` holds the byte `b`.
pub fn contains_byte(s: &[u8], b: u8) -> (r: bool)
    ensures
        r == has_byte(s@, b),
{
    match find_byte(s, b, 0) {
        Some(i) => {
            assert(s@[i as int] == b);
            true
        },
        None => false,
    }
}

/// Parses number text that fits in 64 bits.
pub fn parse_u64(s: &[u8]) -> (r: Option<u64>)
    ensures
        r == (match number_text(s@) {
            Some(n) => if n <= u64::MAX {
                Some(n as u64)
            } else {
                None
            },
            None => None,
        }),
{
    let start: usize = if s.len() > 0 && s[0] == 43 {
        1
    } else {
        0
    };
    let ghost digits = s@.skip(start as int);
    proof {
        assert(start == 0 ==> digits =~= s@);
    }
    if start == s.len() {
        return None;
    }
    let mut value: u64 = 0;
    let mut i: usize = start;
    while i < s.len()
        invariant
            start <= i <= s@.len(),
            start <= 1,
            start < s@.len(),
            start == 1 <==> s@[0] == 43,
            digits == s@.skip(start as int),
            start == 0 ==> digits == s@,
            forall|j: int| 0 <= j < i - start ==> is_digit(#[trigger] digits[j]),
            value == decimal_value(digits.take(i - start)),
        decreases s@.len() - i,
    {
        let b: u8 = s[i];
        let ghost k = i - start;
        proof {
            assert(digits[k] == b);
            assert(digits.take(k + 1).drop_last() =~= digits.take(k));
        }
        if b < 48 || b > 57 {
            proof {
                assert(!is_digit(digits[k]));
            }
            return None;
        }
        let d: u64 = (b - 48) as u64;
        if value > (u64::MAX - d) / 10 {
            proof {
                if is_decimal(digits) {
                    lemma_decimal_prefix_le(digits, k + 1);
                }
            }
            return None;
        }
        value = value * 10 + d;
        i += 1;
    }
    proof {
        assert(digits.take(digits.len() as int) =~= digits);
    }
    Some(value)
}

/// The pieces of `s` between separators.
pub fn split_bytes(s: &[u8], sep: u8) -> (r: Vec<Vec<u8>>)
    ensures
        byte_views(r@) == split_on(s@, sep),
        r@.len() > 0,
{
    let mut done: Vec<Vec<u8>> = Vec::new();
    let mut piece: Vec<u8> = Vec::new();
    let mut i: usize = 0;
    proof {
        assert(byte_views(done@).push(piece@) =~= split_on(s@.take(0), sep));
    }
    while i < s.len()
        invariant
            i <= s@.len(),
            byte_views(done@).push(piece@) == split_on(s@.take(i as int), sep),
        decreases s@.len() - i,
    {
        let ghost front = split_on(s@.take(i as int), sep);
        let ghost piece0 = piece@;
        proof {
            assert(s@.take(i + 1).drop_last() =~= s@.take(i as int));
            assert(s@.take(i + 1).last() == s@[i as int]);
            assert(front.drop_last() =~= byte_views(done@));
            assert(front.last() == piece0);
        }
        if s[i] == sep {
            done.push(piece);
            piece = Vec::new();
            proof {
                assert(byte_views(done@) =~= front);
                assert(byte_views(done@).push(piece@) =~= split_on(s@.take(i + 1), sep));
            }
        } else {
            piece.push(s[i]);
            proof {
                assert(byte_views(done@).push(piece@) =~= split_on(s@.take(i + 1), sep));
            }
        }
        i += 1;
    }
    proof {
        assert(s@.take(s@.len() as int) =~= s@);
    }
    let ghost before = done@;
    done.push(piece);
    proof {
        assert(byte_views(done@) =~= byte_views(before).push(piece@));
    }
    done
}

/// `String::from_utf8`: bytes that are valid UTF-8 become the text they encode,
/// and any other bytes are refused.
#[verifier::external_body]
fn string_from_utf8(bytes: Vec<u8>) -> (r: Option<String>)
    ensures
        r is Some <==> valid_utf8(bytes@),
        r is Some ==> encode_utf8(r->0@) == bytes@,
{
    String::from_utf8(bytes).ok()
}

/// The text that `bytes` encode, when they are valid UTF-8.
pub fn text_from_bytes(bytes: Vec<u8>) -> (r: Option<String>)
    ensures
        r is Some <==> valid_utf8(bytes@),
        r is Some ==> r->0@ == decode_utf8(bytes@) && encode_utf8(r->0@) == bytes@,
{
    let r = string_from_utf8(bytes);
    proof {
        if r is Some {
            vstd::utf8::encode_utf8_decode_utf8(r->0@);
        }
    }
    r
}

/// The part of `s` between two character boundaries.
pub fn sub_str<'a>(s: &'a str, from: usize, to: usize) -> (r: &'a str)
    requires
        from <= to,
        is_char_boundary(s.spec_bytes(), from as int),
        is_char_boundary(s.spec_bytes(), to as int),
        to <= s.spec_bytes().len(),
    ensures
        r.spec_bytes() == s.spec_bytes().subrange(from as int, to as int),
{
    proof {
        vstd::utf8::encode_utf8_valid_utf8(s@);
        lemma_boundary_in_prefix(s.spec_bytes(), from as int, to as int);
    }
    let (head, _tail) = s.split_at(to);
    let (_before, part) = head.split_at(from);
    proof {
        assert(part.spec_bytes() =~= s.spec_bytes().subrange(from as int, to as int));
    }
    part
}

/// The characters of a text.
pub fn chars_of(s: &str) -> (r: Vec<char>)
    ensures
        r@ == s@,
{
    let mut out: Vec<char> = Vec::new();
    let n: usize = s.unicode_len();
    let mut it = s.chars();
    let mut i: usize = 0;
    while i < n
        invariant
            i <= n,
            n == s@.len(),
            out@ == s@.take(i as int),
            it.obeys_prophetic_iter_laws(),
            it.remaining() == s@.skip(i as int),
        decreases n - i,
    {
        match it.next() {
            Some(c) => {
                out.push(c);
            },
            None => {},
        }
        proof {
            assert(out@ =~= s@.take(i + 1));
            assert(s@.skip(i as int).drop_first() =~= s@.skip(i + 1));
        }
        i += 1;
    }
    proof {
        assert(out@ =~= s@);
    }
    out
}

/// `String::from_iter`: the text made of the given characters, in order.
#[verifier::external_body]
pub(crate) fn string_from_chars(chars: &Vec<char>) -> (r: String)
    ensures
        r@ == chars@,
{
    String::from_iter(chars.iter())
}

// Decimal numbers.

/// The character of a decimal digit.
pub open spec fn digit_char(d: nat) -> char {
    (48 + d) as char
}

/// A number in decimal, without leading zeros.
pub open spec fn decimal_text(n: nat) -> Seq<char>
    decreases n,
{
    if n < 10 {
        seq![digit_char(n)]
    } else {
        decimal_text(n / 10).push(digit_char(n % 10))
    }
}

/// Writes a number in decimal.
pub fn decimal(n: u64) -> (r: String)
    ensures
        r@ == decimal_text(n as nat),
{
    // The digits of the lower places, the lowest first.
    let mut low: Vec<char> = Vec::new();
    let mut left: u64 = n;
    let ghost whole = decimal_text(n as nat);
    proof {
        assert(decimal_text(left as nat) + low@.reverse() =~= whole);
    }
    while left >= 10
        invariant
            whole == decimal_text(n as nat),
            decimal_text(left as nat) + low@.reverse() == whole,
        decreases left,
    {
        let ghost before = low@;
        let ghost digit = digit_char((left % 10) as nat);
        let c: char = (48 + (left % 10) as u8) as char;
        low.push(c);
        proof {
            assert(c == digit);
            assert(low@.reverse() =~= seq![digit] + before.reverse());
            assert(decimal_text((left / 10) as nat).push(digit) + before.reverse()
                =~= decimal_text((left / 10) as nat) + low@.reverse());
        }
        left = left / 10;
    }
    low.push((48 + left as u8) as char);
    let ghost rev = low@;
    proof {
        assert(rev.reverse() =~= decimal_text(left as nat) + rev.drop_last().reverse());
    }
    let mut out: Vec<char> = Vec::new();
    let mut i: usize = low.len();
    while i > 0
        invariant
            i <= low@.len(),
            rev == low@,
            out@ == rev.reverse().take(low@.len() - i),
        decreases i,
    {
        i -= 1;
        out.push(low[i]);
        proof {
            assert(rev.reverse()[low@.len() - i - 1] == rev[i as int]);
            assert(out@ =~= rev.reverse().take(low@.len() - i));
        }
    }
    proof {
        assert(rev.reverse().take(low@.len() as int) =~= rev.reverse());
    }
    string_from_chars(&out)
}

/// A number in decimal, with leading zeros up to a width.
pub open spec fn padded_text(n: nat, width: nat) -> Seq<char> {
    let t = decimal_text(n);
    if t.len() >= width {
        t
    } else {
        Seq::new((width - t.len()) as nat, |i: int| '0') + t
    }
}

/// Writes a number in decimal, with leading zeros up to a width.
pub fn padded(n: u64, width: usize) -> (r: String)
    ensures
        r@ == padded_text(n as nat, width as nat),
{
    let digits = decimal(n);
    let t = chars_of(digits.as_str());
    if t.len() >= width {
        return digits;
    }
    let mut out: Vec<char> = Vec::new();
    let zeros: usize = width - t.len();
    let mut i: usize = 0;
    while i < zeros
        invariant
            i <= zeros,
            out@ == Seq::new(i as nat, |k: int| '0'),
        decreases zeros - i,
    {
        out.push('0');
        i += 1;
        proof {
            assert(out@ =~= Seq::new(i as nat, |k: int| '0'));
        }
    }
    let ghost lead = out@;
    let mut j: usize = 0;
    while j < t.len()
        invariant
            j <= t@.len(),
            out@ == lead + t@.take(j as int),
        decreases t@.len() - j,
    {
        out.push(t[j]);
        j += 1;
        proof {
            assert(out@ =~= lead + t@.take(j as int));
        }
    }
    proof {
        assert(t@.take(t@.len() as int) =~= t@);
    }
    string_from_chars(&out)
}

/// Letters fold to lower case by their distance in ASCII, and every other byte stays.
pub proof fn law_only_letters_fold(b: u8)
    ensures
        65 <= b <= 90 ==> lower_byte(b) == b + 32,
        b < 65 || b > 90 ==> lower_byte(b) == b,
        lower_byte(lower_byte(b)) == lower_byte(b),
        lower_bytes(seq![b]) == seq![lower_byte(b)],
{
    assert(lower_bytes(seq![b]) =~= seq![lower_byte(b)]);
}

/// A decimal text grows by a digit: ten times the number and the digit. A text with any other byte
/// is no number, and neither is an empty one.
pub proof fn law_digits_make_a_number(s: Seq<u8>, d: u8)
    ensures
        48 <= d <= 57 ==> decimal_value(s.push(d)) == decimal_value(s) * 10 + (d - 48),
        is_digit(d) <==> 48 <= d <= 57,
        s.len() > 0 && 48 <= d <= 57 ==> (is_decimal(s.push(d)) <==> is_decimal(s)),
        !(48 <= d <= 57) ==> !is_decimal(s.push(d)),
        !is_decimal(Seq::empty()),
        decimal_value(Seq::empty()) == 0,
{
    let t = s.push(d);
    assert(t.drop_last() =~= s);
    assert(t.last() == d);
    assert(t[s.len() as int] == d);
    assert forall|i: int| 0 <= i < s.len() implies t[i] == #[trigger] s[i] by {}
}

/// A number that was written down is read as that number, and begins with a zero only where it is
/// zero.
pub proof fn law_decimal_text_reads_back(n: nat)
    ensures
        ({
            let bytes = decimal_text(n).map_values(|c: char| c as u8);
            &&& is_decimal(bytes)
            &&& decimal_value(bytes) == n
            &&& bytes[0] == 48 ==> n == 0
        }),
    decreases n,
{
    let text = decimal_text(n);
    let bytes = text.map_values(|c: char| c as u8);
    if n < 10 {
        assert(bytes =~= seq![(48 + n) as u8]);
        assert(bytes.drop_last() =~= Seq::empty());
        assert(decimal_value(bytes.drop_last()) == 0);
    } else {
        law_decimal_text_reads_back(n / 10);
        let front = decimal_text(n / 10).map_values(|c: char| c as u8);
        assert(bytes =~= front.push((48 + n % 10) as u8));
        law_digits_make_a_number(front, (48 + n % 10) as u8);
        assert(bytes[0] == front[0]);
    }
}

/// The pieces of two texts with a separator between them are those of the first and then those of
/// the second.
pub proof fn law_split_around(a: Seq<u8>, b: Seq<u8>, sep: u8)
    ensures
        split_on(a + seq![sep] + b, sep) == split_on(a, sep) + split_on(b, sep),
    decreases b.len(),
{
    let whole = a + seq![sep] + b;
    lemma_split_nonempty(b, sep);
    if b.len() == 0 {
        assert(whole.drop_last() =~= a);
        assert(split_on(whole, sep) =~= split_on(a, sep) + split_on(b, sep));
    } else {
        let front = b.drop_last();
        law_split_around(a, front, sep);
        lemma_split_nonempty(front, sep);
        assert(whole.drop_last() =~= a + seq![sep] + front);
        assert(split_on(whole, sep) =~= split_on(a, sep) + split_on(b, sep));
    }
}

/// A text without separators is one piece.
pub proof fn law_split_of_piece(f: Seq<u8>, sep: u8)
    requires
        !f.contains(sep),
    ensures
        split_on(f, sep) == seq![f],
    decreases f.len(),
{
    if f.len() > 0 {
        let front = f.drop_last();
        assert(f[f.len() - 1] != sep) by {
            assert(f.contains(f[f.len() - 1]));
        }
        assert(!front.contains(sep)) by {
            if front.contains(sep) {
                let i = choose|i: int| 0 <= i < front.len() && front[i] == sep;
                assert(f[i] == sep);
            }
        }
        law_split_of_piece(front, sep);
        assert(front.push(f.last()) =~= f);
        assert(split_on(f, sep) =~= seq![f]);
    } else {
        assert(f =~= Seq::empty());
    }
}


/// Padding puts zeros in front until the width is reached, and takes nothing away.
pub proof fn law_padding_keeps_the_number(n: nat, width: nat)
    ensures
        padded_text(n, width).len() >= width,
        padded_text(n, width).len() >= decimal_text(n).len(),
        padded_text(n, width).len() == width || padded_text(n, width) == decimal_text(n),
        padded_text(n, width).skip(padded_text(n, width).len() - decimal_text(n).len())
            == decimal_text(n),
        forall|i: int|
            0 <= i < padded_text(n, width).len() - decimal_text(n).len() ==> #[trigger] padded_text(
                n,
                width,
            )[i] == '0',
{
    let t = decimal_text(n);
    let p = padded_text(n, width);
    assert(p.skip(p.len() - t.len()) =~= t);
}

/// A number may be written with one plus in front, which changes nothing; anything else than digits
/// is no number.
pub proof fn law_plus_is_optional(s: Seq<u8>)
    ensures
        is_decimal(s) ==> number_text(s) == Some(decimal_value(s)) && number_text(seq![43u8] + s)
            == number_text(s),
        number_text(seq![43u8, 43u8] + s) is None,
        number_text(seq![45u8] + s) is None,
        number_text(Seq::empty()) is None,
        number_text(s) is Some ==> is_decimal(s) || (s[0] == 43 && is_decimal(s.skip(1))),
{
    let plus = seq![43u8] + s;
    let two = seq![43u8, 43u8] + s;
    let minus = seq![45u8] + s;
    assert(plus.skip(1) =~= s);
    assert(two.skip(1)[0] == 43u8);
    assert(!is_digit(two.skip(1)[0]));
    assert(minus[0] == 45u8);
    assert(!is_digit(minus[0]));
    if is_decimal(s) {
        assert(is_digit(s[0]));
    }
}

} // verus!
