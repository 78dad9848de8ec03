//! Line and value primitives shared by the field parsers.
//!
//! Each primitive comes as a pair: a specification `spec_..` that maps the
//! bytes of the remaining input to the value read and the number of bytes
//! consumed, or to the failure, and an executable function proved to return
//! exactly that.

use crate::datetime::DateTime;
use crate::error::ParseError;
use crate::text::{
    ascii_lower, fold_case, lemma_boundary_after_folded_prefix, lemma_boundary_after_prefix,
    lemma_boundary_around_ascii, split_at_byte,
};
use vstd::prelude::*;
use vstd::string::StringSliceAdditionalSpecFns;
use vstd::utf8::*;

verus! {

/// The line terminator.
pub const NEWLINE: u8 = 0x0a;

/// The line terminator, as a literal to be matched.
pub const LINE_ENDING: &'static str = "\n";

/// What ends the free text of a multi-line section: the terminator of the
/// text's last line and the five-dash separator line.
pub const TEXT_END: &'static str = "\n-----\n";

/// The mark between month, day and year.
pub const SLASH: &'static str = "/";

/// The mark between the date and the time of day.
pub const SPACE: &'static str = " ";

/// The mark between hour, minute and second.
pub const COLON: &'static str = ":";

/// The suffix of a time before noon.
pub const AM_SUFFIX: &'static str = " AM";

/// The suffix of a time after noon.
pub const PM_SUFFIX: &'static str = " PM";

/// `rest` is `input` without its first `n` bytes.
pub open spec fn is_rest_of(rest: &str, input: &str, n: nat) -> bool {
    n <= input.spec_bytes().len() && rest.spec_bytes() == input.spec_bytes().skip(n as int)
}

/// `r` is the outcome `expected` on `input`: the same failure, or the text that
/// `expected` names together with the input that follows the consumed bytes.
pub open spec fn yields_text(
    r: Result<(&str, &str), ParseError>,
    input: &str,
    expected: Result<(Seq<u8>, nat), ParseError>,
) -> bool {
    match expected {
        Ok((text, n)) => r matches Ok((rest, t)) && t.spec_bytes() == text && is_rest_of(
            rest,
            input,
            n,
        ),
        Err(e) => r matches Err(f) && f == e,
    }
}

/// `r` is the outcome `expected` on `input`: the same failure, or the very
/// value that `expected` names together with the input that follows the
/// consumed bytes.
pub open spec fn yields_value<T>(
    r: Result<(&str, T), ParseError>,
    input: &str,
    expected: Result<(T, nat), ParseError>,
) -> bool {
    match expected {
        Ok((value, n)) => r matches Ok((rest, v)) && v == value && is_rest_of(rest, input, n),
        Err(e) => r matches Err(f) && f == e,
    }
}

/// `r` is the outcome `expected` on `input`: the same failure, or a value whose
/// view `expected` names together with the input that follows the consumed
/// bytes.
pub open spec fn yields_view<T: View>(
    r: Result<(&str, T), ParseError>,
    input: &str,
    expected: Result<(T::V, nat), ParseError>,
) -> bool {
    match expected {
        Ok((value, n)) => r matches Ok((rest, v)) && v@ == value && is_rest_of(rest, input, n),
        Err(e) => r matches Err(f) && f == e,
    }
}

/// The UTF-8 bytes of a string slice are well formed.
pub proof fn lemma_str_bytes_valid(s: &str)
    ensures
        valid_utf8(s.spec_bytes()),
{
    encode_utf8_valid_utf8(s@);
}

// ---------------------------------------------------------------------------
// Literals
// ---------------------------------------------------------------------------
/// Matching the literal `lit` at the head of `s`: it is there, or the input
/// ends while still agreeing with it, or they differ.
pub open spec fn spec_literal(s: Seq<u8>, lit: Seq<u8>) -> Result<nat, ParseError> {
    if lit.is_prefix_of(s) {
        Ok(lit.len())
    } else if s.is_prefix_of(lit) {
        Err(ParseError::IncompleteInput)
    } else {
        Err(ParseError::GrammarMismatch)
    }
}

/// Consumes `literal` from the head of `input`.
pub fn parse_literal<'a>(input: &'a str, literal: &str) -> (r: Result<&'a str, ParseError>)
    ensures
        match spec_literal(input.spec_bytes(), literal.spec_bytes()) {
            Ok(n) => r matches Ok(rest) && is_rest_of(rest, input, n),
            Err(e) => r matches Err(f) && f == e,
        },
{
    let bytes = input.as_bytes();
    let lit = literal.as_bytes();
    let mut i: usize = 0;
    while i < lit.len()
        invariant
            i <= lit.len(),
            i <= bytes.len(),
            bytes@ == input.spec_bytes(),
            lit@ == literal.spec_bytes(),
            forall|j: int| 0 <= j < i ==> bytes@[j] == lit@[j],
        decreases lit.len() - i,
    {
        if i >= bytes.len() {
            assert(bytes@ =~= lit@.subrange(0, bytes@.len() as int));
            return Err(ParseError::IncompleteInput);
        }
        if bytes[i] != lit[i] {
            assert(!lit@.is_prefix_of(bytes@)) by {
                if lit@.is_prefix_of(bytes@) {
                    assert(bytes@.subrange(0, lit@.len() as int)[i as int] == lit@[i as int]);
                }
            }
            assert(!bytes@.is_prefix_of(lit@)) by {
                if bytes@.is_prefix_of(lit@) {
                    assert(lit@.subrange(0, bytes@.len() as int)[i as int] == bytes@[i as int]);
                }
            }
            return Err(ParseError::GrammarMismatch);
        }
        i += 1;
    }
    proof {
        assert(lit@ =~= bytes@.subrange(0, lit@.len() as int));
        lemma_str_bytes_valid(input);
        lemma_str_bytes_valid(literal);
        lemma_boundary_after_prefix(bytes@, lit@);
    }
    let (_, rest) = split_at_byte(input, lit.len());
    Ok(rest)
}

/// The outcome is a failure to match.
pub open spec fn is_mismatch<T>(r: Result<T, ParseError>) -> bool {
    r matches Err(ParseError::GrammarMismatch)
}

/// Input does not match a literal from which it differs at some position.
pub proof fn lemma_literal_mismatch_at(s: Seq<u8>, lit: Seq<u8>, d: int)
    requires
        0 <= d < s.len(),
        d < lit.len(),
        s[d] != lit[d],
    ensures
        spec_literal(s, lit) == Err::<nat, ParseError>(ParseError::GrammarMismatch),
{
    if lit.is_prefix_of(s) {
        assert(s.subrange(0, lit.len() as int)[d] == lit[d]);
    }
    if s.is_prefix_of(lit) {
        assert(lit.subrange(0, s.len() as int)[d] == s[d]);
    }
}

/// Matching the literal `lit` at the head of `s` without regard to the case of
/// ASCII letters.
pub open spec fn spec_literal_no_case(s: Seq<u8>, lit: Seq<u8>) -> Result<nat, ParseError> {
    spec_literal(fold_case(s), fold_case(lit))
}

/// A string slice of ASCII characters has one byte for each character, the
/// character's code.
pub proof fn lemma_ascii_literal(s: &str)
    requires
        vstd::string::is_ascii(s),
    ensures
        s.spec_bytes().len() == s@.len(),
        forall|i: int| 0 <= i < s@.len() ==> s.spec_bytes()[i] == s@[i] as u8,
{
    vstd::string::is_ascii_spec_bytes(s);
    is_ascii_chars_nat_bound(s@);
}

/// Executable form of [`ascii_lower`].
fn lower(b: u8) -> (r: u8)
    ensures
        r == ascii_lower(b),
{
    if 0x41 <= b && b <= 0x5a {
        b + 0x20
    } else {
        b
    }
}

/// Consumes `literal` from the head of `input`, accepting either case of each
/// ASCII letter.
pub fn parse_literal_no_case<'a>(input: &'a str, literal: &str) -> (r: Result<
    &'a str,
    ParseError,
>)
    ensures
        match spec_literal_no_case(input.spec_bytes(), literal.spec_bytes()) {
            Ok(n) => r matches Ok(rest) && is_rest_of(rest, input, n),
            Err(e) => r matches Err(f) && f == e,
        },
{
    let bytes = input.as_bytes();
    let lit = literal.as_bytes();
    let ghost fb = fold_case(bytes@);
    let ghost fl = fold_case(lit@);
    let mut i: usize = 0;
    while i < lit.len()
        invariant
            i <= lit.len(),
            i <= bytes.len(),
            bytes@ == input.spec_bytes(),
            lit@ == literal.spec_bytes(),
            fb == fold_case(bytes@),
            fl == fold_case(lit@),
            forall|j: int| 0 <= j < i ==> fb[j] == fl[j],
        decreases lit.len() - i,
    {
        if i >= bytes.len() {
            assert(fb =~= fl.subrange(0, fb.len() as int));
            return Err(ParseError::IncompleteInput);
        }
        if lower(bytes[i]) != lower(lit[i]) {
            assert(!fl.is_prefix_of(fb)) by {
                if fl.is_prefix_of(fb) {
                    assert(fb.subrange(0, fl.len() as int)[i as int] == fl[i as int]);
                }
            }
            assert(!fb.is_prefix_of(fl)) by {
                if fb.is_prefix_of(fl) {
                    assert(fl.subrange(0, fb.len() as int)[i as int] == fb[i as int]);
                }
            }
            return Err(ParseError::GrammarMismatch);
        }
        i += 1;
    }
    proof {
        assert(fl =~= fb.subrange(0, fl.len() as int));
        lemma_str_bytes_valid(input);
        lemma_str_bytes_valid(literal);
        lemma_boundary_after_folded_prefix(bytes@, lit@);
    }
    let (_, rest) = split_at_byte(input, lit.len());
    Ok(rest)
}

// ---------------------------------------------------------------------------
// Scanning
// ---------------------------------------------------------------------------
/// Length of the longest prefix of `s` at none of whose positions `stop` holds
/// of the input that remains there.
pub open spec fn scan_len(s: Seq<u8>, stop: spec_fn(Seq<u8>) -> bool) -> nat
    decreases s.len(),
{
    if s.len() == 0 || stop(s) {
        0
    } else {
        1 + scan_len(s.skip(1), stop)
    }
}

/// What [`scan_len`] returns is within the input, passes only positions at
/// which `stop` fails, and ends at one where it holds or at the end.
pub proof fn lemma_scan_len_props(s: Seq<u8>, stop: spec_fn(Seq<u8>) -> bool)
    ensures
        scan_len(s, stop) <= s.len(),
        forall|j: int| 0 <= j < scan_len(s, stop) ==> !#[trigger] stop(s.skip(j)),
        scan_len(s, stop) < s.len() ==> stop(s.skip(scan_len(s, stop) as int)),
    decreases s.len(),
{
    if s.len() == 0 || stop(s) {
        assert(s.skip(0) =~= s);
    } else {
        let t = s.skip(1);
        lemma_scan_len_props(t, stop);
        let n = scan_len(s, stop);
        assert forall|j: int| 0 <= j < n implies !#[trigger] stop(s.skip(j)) by {
            if j == 0 {
                assert(s.skip(0) =~= s);
            } else {
                assert(t.skip(j - 1) =~= s.skip(j));
            }
        }
        if n < s.len() {
            assert(t.skip(n - 1) =~= s.skip(n as int));
        }
    }
}

/// A length with the three properties of [`lemma_scan_len_props`] is the one
/// that [`scan_len`] returns.
pub proof fn lemma_scan_len_is(s: Seq<u8>, stop: spec_fn(Seq<u8>) -> bool, n: nat)
    requires
        n <= s.len(),
        forall|j: int| 0 <= j < n ==> !#[trigger] stop(s.skip(j)),
        n < s.len() ==> stop(s.skip(n as int)),
    ensures
        scan_len(s, stop) == n,
    decreases n,
{
    assert(s.skip(0) =~= s);
    if n > 0 {
        let t = s.skip(1);
        assert forall|j: int| 0 <= j < n - 1 implies !#[trigger] stop(t.skip(j)) by {
            assert(t.skip(j) =~= s.skip(j + 1));
        }
        assert(t.skip(n - 1) =~= s.skip(n as int));
        lemma_scan_len_is(t, stop, (n - 1) as nat);
    }
}

// ---------------------------------------------------------------------------
// Lines
// ---------------------------------------------------------------------------
/// The remaining input begins with the line terminator.
pub open spec fn at_newline(r: Seq<u8>) -> bool {
    r.len() > 0 && r[0] == NEWLINE
}

/// [`at_newline`] as the condition at which a scan stops.
pub open spec fn newline_stop() -> spec_fn(Seq<u8>) -> bool {
    |r: Seq<u8>| at_newline(r)
}

/// Number of bytes of `s` before its first line terminator; `s.len()` when it
/// has none.
pub open spec fn line_len(s: Seq<u8>) -> nat {
    scan_len(s, newline_stop())
}

/// The text up to the first line terminator, which is consumed with it; a
/// failure when the input has no line terminator.
pub open spec fn spec_until_line_ending(s: Seq<u8>) -> Result<(Seq<u8>, nat), ParseError> {
    let n = line_len(s);
    if n < s.len() {
        Ok((s.take(n as int), n + 1))
    } else {
        Err(ParseError::IncompleteInput)
    }
}

/// `n` is [`line_len`] of `s` when no byte before `n` is a line terminator and
/// `n` is the end of `s` or holds one.
pub proof fn lemma_line_len_is(s: Seq<u8>, n: nat)
    requires
        n <= s.len(),
        forall|j: int| 0 <= j < n ==> s[j] != NEWLINE,
        n < s.len() ==> s[n as int] == NEWLINE,
    ensures
        line_len(s) == n,
{
    assert forall|j: int| 0 <= j < n implies !#[trigger] newline_stop()(s.skip(j)) by {
        assert(s.skip(j)[0] == s[j]);
    }
    if n < s.len() {
        assert(s.skip(n as int)[0] == s[n as int]);
    }
    lemma_scan_len_is(s, newline_stop(), n);
}

/// Reads the rest of the current line and consumes its terminator.
pub fn parse_until_line_ending<'a>(input: &'a str) -> (r: Result<(&'a str, &'a str), ParseError>)
    ensures
        yields_text(r, input, spec_until_line_ending(input.spec_bytes())),
{
    let bytes = input.as_bytes();
    let mut i: usize = 0;
    while i < bytes.len() && bytes[i] != NEWLINE
        invariant
            i <= bytes.len(),
            forall|j: int| 0 <= j < i ==> bytes@[j] != NEWLINE,
        decreases bytes.len() - i,
    {
        i += 1;
    }
    proof {
        lemma_line_len_is(bytes@, i as nat);
    }
    if i >= bytes.len() {
        return Err(ParseError::IncompleteInput);
    }
    proof {
        lemma_str_bytes_valid(input);
        lemma_boundary_around_ascii(bytes@, i as int);
    }
    let (line, tail) = split_at_byte(input, i);
    proof {
        lemma_str_bytes_valid(tail);
        assert(tail.spec_bytes()[0] == bytes@[i as int]);
        lemma_boundary_around_ascii(tail.spec_bytes(), 0);
    }
    let (_, rest) = split_at_byte(tail, 1);
    assert(rest.spec_bytes() =~= bytes@.skip(i + 1));
    Ok((rest, line))
}

/// The outcome `r` of a parser that started after `k` consumed bytes, counted
/// from where those began.
pub open spec fn shifted<T>(k: nat, r: Result<(T, nat), ParseError>) -> Result<
    (T, nat),
    ParseError,
> {
    match r {
        Ok((v, n)) => Ok((v, k + n)),
        Err(e) => Err(e),
    }
}

/// The outcome `r` of a parser, followed by the literal `lit` in the input `s`
/// that the parser read from.
pub open spec fn then_expect<T>(
    s: Seq<u8>,
    r: Result<(T, nat), ParseError>,
    lit: Seq<u8>,
) -> Result<(T, nat), ParseError> {
    match r {
        Ok((v, n)) => match spec_literal(s.skip(n as int), lit) {
            Ok(k) => Ok((v, n + k)),
            Err(e) => Err(e),
        },
        Err(e) => Err(e),
    }
}

/// What is left after a rest is what is left after both parts.
pub proof fn lemma_rest_of_rest(input: &str, mid: &str, rest: &str, k: nat, n: nat)
    requires
        is_rest_of(mid, input, k),
        is_rest_of(rest, mid, n),
    ensures
        is_rest_of(rest, input, k + n),
{
    assert(input.spec_bytes().skip(k as int).skip(n as int) =~= input.spec_bytes().skip(
        (k + n) as int,
    ));
}

/// A line that begins with the literal `key`: the text between the key and
/// the line terminator.
pub open spec fn spec_keyed_line(s: Seq<u8>, key: Seq<u8>) -> Result<(Seq<u8>, nat), ParseError> {
    match spec_literal(s, key) {
        Err(e) => Err(e),
        Ok(k) => shifted(k, spec_until_line_ending(s.skip(k as int))),
    }
}

/// Reads a line that begins with `key` and returns the text after the key.
pub fn parse_keyed_line<'a>(input: &'a str, key: &str) -> (r: Result<
    (&'a str, &'a str),
    ParseError,
>)
    ensures
        yields_text(r, input, spec_keyed_line(input.spec_bytes(), key.spec_bytes())),
{
    let value = parse_literal(input, key)?;
    let (rest, text) = parse_until_line_ending(value)?;
    proof {
        let k = key.spec_bytes().len();
        let n = spec_until_line_ending(value.spec_bytes())->Ok_0.1;
        lemma_rest_of_rest(input, value, rest, k, n);
    }
    Ok((rest, text))
}

// ---------------------------------------------------------------------------
// Choice and repetition
// ---------------------------------------------------------------------------
/// A choice between two alternatives: the first decides when it succeeds or
/// fails for good, the second when the first does not match.
pub open spec fn or_else<T>(
    first: Result<(T, nat), ParseError>,
    second: Result<(T, nat), ParseError>,
) -> Result<(T, nat), ParseError> {
    match first {
        Ok(_) => first,
        Err(e) => if e.is_recoverable() {
            second
        } else {
            first
        },
    }
}

/// The end of a chain of [`or_else`]: no alternative matched.
pub open spec fn no_alternative<T>() -> Result<(T, nat), ParseError> {
    Err(ParseError::GrammarMismatch)
}

/// Zero or more times `element`: the values read, in order, up to the first
/// position at which `element` does not match or consumes nothing. A failure
/// of `element` that is no mismatch is the failure of the repetition.
pub open spec fn spec_many0<T>(
    s: Seq<u8>,
    element: spec_fn(Seq<u8>) -> Result<(T, nat), ParseError>,
) -> Result<(Seq<T>, nat), ParseError>
    decreases s.len(),
{
    match element(s) {
        Ok((v, n)) => if 0 < n <= s.len() {
            match spec_many0(s.skip(n as int), element) {
                Ok((vs, m)) => Ok((seq![v] + vs, n + m)),
                Err(e) => Err(e),
            }
        } else {
            Ok((Seq::empty(), 0))
        },
        Err(e) => if e.is_recoverable() {
            Ok((Seq::empty(), 0))
        } else {
            Err(e)
        },
    }
}

/// A repetition consumes no more than there is.
pub proof fn lemma_many0_bounds<T>(
    s: Seq<u8>,
    element: spec_fn(Seq<u8>) -> Result<(T, nat), ParseError>,
)
    ensures
        spec_many0(s, element) matches Ok((_, n)) ==> n <= s.len(),
    decreases s.len(),
{
    match element(s) {
        Ok((_, n)) => {
            if 0 < n <= s.len() {
                lemma_many0_bounds(s.skip(n as int), element);
            }
        },
        Err(_) => {},
    }
}

/// What holds of every value that `element` can read holds of every value of
/// the repetition.
pub proof fn lemma_many0_all<T>(
    s: Seq<u8>,
    element: spec_fn(Seq<u8>) -> Result<(T, nat), ParseError>,
    good: spec_fn(T) -> bool,
)
    requires
        forall|r: Seq<u8>| (#[trigger] element(r)) matches Ok((v, _)) ==> good(v),
    ensures
        spec_many0(s, element) matches Ok((vs, _)) ==> forall|i: int|
            0 <= i < vs.len() ==> good(#[trigger] vs[i]),
    decreases s.len(),
{
    match element(s) {
        Ok((v, n)) => {
            if 0 < n <= s.len() {
                lemma_many0_all(s.skip(n as int), element, good);
            }
        },
        Err(_) => {},
    }
}

/// The outcome `r` of a repetition that started after `at` consumed bytes and
/// after the values `done`, counted from the start.
pub open spec fn resumed<T>(done: Seq<T>, at: nat, r: Result<(Seq<T>, nat), ParseError>) -> Result<
    (Seq<T>, nat),
    ParseError,
> {
    match r {
        Ok((vs, m)) => Ok((done + vs, at + m)),
        Err(e) => Err(e),
    }
}

/// A repetition that has read `done` up to `at` and reads `v` in `n` more
/// bytes goes on from there with `done` and `v`.
pub proof fn lemma_many0_step<T>(
    s: Seq<u8>,
    element: spec_fn(Seq<u8>) -> Result<(T, nat), ParseError>,
    done: Seq<T>,
    at: nat,
    v: T,
    n: nat,
)
    requires
        at <= s.len(),
        element(s.skip(at as int)) == Ok::<(T, nat), ParseError>((v, n)),
        0 < n <= s.len() - at,
    ensures
        resumed(done, at, spec_many0(s.skip(at as int), element)) == resumed(
            done.push(v),
            at + n,
            spec_many0(s.skip((at + n) as int), element),
        ),
{
    assert(s.skip(at as int).skip(n as int) =~= s.skip((at + n) as int));
    match spec_many0(s.skip((at + n) as int), element) {
        Ok((vs, m)) => {
            assert(done + (seq![v] + vs) =~= done.push(v) + vs);
        },
        Err(_) => {},
    }
}

/// A repetition that has read `done` up to `at` and then meets something that
/// is no element has read `done`.
pub proof fn lemma_many0_stop<T>(
    s: Seq<u8>,
    element: spec_fn(Seq<u8>) -> Result<(T, nat), ParseError>,
    done: Seq<T>,
    at: nat,
)
    requires
        at <= s.len(),
        match element(s.skip(at as int)) {
            Ok((_, n)) => !(0 < n <= s.len() - at),
            Err(e) => e.is_recoverable(),
        },
    ensures
        resumed(done, at, spec_many0(s.skip(at as int), element)) == Ok::<
            (Seq<T>, nat),
            ParseError,
        >((done, at)),
{
    assert(done + Seq::<T>::empty() =~= done);
}

// ---------------------------------------------------------------------------
// Numbers
// ---------------------------------------------------------------------------
/// The byte is an ASCII decimal digit.
pub open spec fn is_digit(b: u8) -> bool {
    0x30 <= b <= 0x39
}

/// Ten to the power `n`.
pub open spec fn pow10(n: nat) -> nat
    decreases n,
{
    if n == 0 {
        1
    } else {
        10 * pow10((n - 1) as nat)
    }
}

/// The number written by the first `n` bytes of `s`, which must all be decimal
/// digits. The first byte that is missing or is no digit decides the failure.
pub open spec fn spec_digits(s: Seq<u8>, n: nat) -> Result<(nat, nat), ParseError>
    decreases n,
{
    if n == 0 {
        Ok((0, 0))
    } else {
        match spec_digits(s, (n - 1) as nat) {
            Err(e) => Err(e),
            Ok((v, _)) => if s.len() < n {
                Err(ParseError::IncompleteInput)
            } else if !is_digit(s[n - 1]) {
                Err(ParseError::GrammarMismatch)
            } else {
                Ok(((v * 10 + (s[n - 1] - 0x30)) as nat, n))
            },
        }
    }
}

/// A number of `n` digits is below ten to the `n`, and reading it consumes `n`
/// bytes.
pub proof fn lemma_digits_bound(s: Seq<u8>, n: nat)
    ensures
        spec_digits(s, n) matches Ok((v, k)) ==> v < pow10(n) && k == n && n <= s.len(),
    decreases n,
{
    if n > 0 {
        lemma_digits_bound(s, (n - 1) as nat);
    }
}

/// Ten to the ninth fits in 32 bits, and smaller powers are smaller.
pub proof fn lemma_pow10_small(n: nat)
    requires
        n <= 9,
    ensures
        pow10(n) <= 1_000_000_000,
{
    reveal_with_fuel(pow10, 10);
}

/// The number written by exactly `n` decimal digits, as [`spec_digits`] reads
/// it, where it fits in 32 bits. Digits that write a larger number are a
/// `ValueError`.
pub open spec fn spec_n_digits(s: Seq<u8>, n: nat) -> Result<(u32, nat), ParseError> {
    match spec_digits(s, n) {
        Err(e) => Err(e),
        Ok((v, k)) => if v <= u32::MAX {
            Ok((v as u32, k))
        } else {
            Err(ParseError::ValueError)
        },
    }
}

/// Reads exactly `n` decimal digits as a number.
pub fn take_n_digits<'a>(n: usize, input: &'a str) -> (r: Result<(&'a str, u32), ParseError>)
    ensures
        yields_value(r, input, spec_n_digits(input.spec_bytes(), n as nat)),
{
    let bytes = input.as_bytes();
    let mut value: u32 = 0;
    let mut fits = true;
    let mut i: usize = 0;
    while i < n
        invariant
            i <= n,
            i <= bytes.len(),
            bytes@ == input.spec_bytes(),
            spec_digits(bytes@, i as nat) matches Ok((v, k)) && k == i && if fits {
                v == value
            } else {
                v > u32::MAX
            },
        decreases n - i,
    {
        if i >= bytes.len() {
            proof {
                lemma_digits_fail_stays(bytes@, (i + 1) as nat, n as nat);
            }
            return Err(ParseError::IncompleteInput);
        }
        let b = bytes[i];
        if b < 0x30 || b > 0x39 {
            proof {
                lemma_digits_fail_stays(bytes@, (i + 1) as nat, n as nat);
            }
            return Err(ParseError::GrammarMismatch);
        }
        let d = (b - 0x30) as u32;
        if fits {
            if value > (u32::MAX - d) / 10 {
                fits = false;
            } else {
                value = value * 10 + d;
            }
        }
        i += 1;
    }
    if !fits {
        return Err(ParseError::ValueError);
    }
    proof {
        lemma_str_bytes_valid(input);
        if n > 0 {
            assert(is_digit(bytes@[n - 1]));
            lemma_boundary_around_ascii(bytes@, n - 1);
        } else {
            is_char_boundary_start_end_of_seq(bytes@);
        }
    }
    let (_, rest) = split_at_byte(input, n);
    Ok((rest, value))
}

/// Once reading `m` digits fails, reading more fails the same way.
pub proof fn lemma_digits_fail_stays(s: Seq<u8>, m: nat, n: nat)
    requires
        m <= n,
        spec_digits(s, m) is Err,
    ensures
        spec_digits(s, n) == spec_digits(s, m),
    decreases n,
{
    if m < n {
        lemma_digits_fail_stays(s, m, (n - 1) as nat);
    }
}

// ---------------------------------------------------------------------------
// Flags
// ---------------------------------------------------------------------------
/// A single `0` or `1` and the line terminator: false or true.
pub open spec fn spec_num_bool_flag(s: Seq<u8>) -> Result<(bool, nat), ParseError> {
    if s.len() == 0 {
        Err(ParseError::IncompleteInput)
    } else if s[0] != 0x30 && s[0] != 0x31 {
        Err(ParseError::GrammarMismatch)
    } else {
        match spec_literal(s.skip(1), LINE_ENDING.spec_bytes()) {
            Ok(n) => Ok((s[0] == 0x31, 1 + n)),
            Err(e) => Err(e),
        }
    }
}

/// Reads a `0` or `1` flag that fills the rest of the line.
pub fn parse_num_bool_flag<'a>(input: &'a str) -> (r: Result<(&'a str, bool), ParseError>)
    ensures
        yields_value(r, input, spec_num_bool_flag(input.spec_bytes())),
{
    let bytes = input.as_bytes();
    if bytes.len() == 0 {
        return Err(ParseError::IncompleteInput);
    }
    let b = bytes[0];
    if b != 0x30 && b != 0x31 {
        return Err(ParseError::GrammarMismatch);
    }
    proof {
        lemma_str_bytes_valid(input);
        lemma_boundary_around_ascii(bytes@, 0);
    }
    let (_, tail) = split_at_byte(input, 1);
    match parse_literal(tail, LINE_ENDING) {
        Ok(rest) => {
            let ghost n = LINE_ENDING.spec_bytes().len();
            assert(rest.spec_bytes() =~= bytes@.skip(1 + n as int));
            Ok((rest, b == 0x31))
        },
        Err(e) => Err(e),
    }
}

// ---------------------------------------------------------------------------
// Dates
// ---------------------------------------------------------------------------
/// One more number of `n` digits, read where the numbers so far ended.
pub open spec fn then_digits(
    state: Result<(Seq<nat>, nat), ParseError>,
    s: Seq<u8>,
    n: nat,
) -> Result<(Seq<nat>, nat), ParseError> {
    match state {
        Err(e) => Err(e),
        Ok((values, at)) => match spec_digits(s.skip(at as int), n) {
            Err(e) => Err(e),
            Ok((v, k)) => Ok((values.push(v), at + k)),
        },
    }
}

/// The literal `lit`, matched where the numbers so far ended.
pub open spec fn then_literal(
    state: Result<(Seq<nat>, nat), ParseError>,
    s: Seq<u8>,
    lit: Seq<u8>,
) -> Result<(Seq<nat>, nat), ParseError> {
    match state {
        Err(e) => Err(e),
        Ok((values, at)) => match spec_literal(s.skip(at as int), lit) {
            Err(e) => Err(e),
            Ok(k) => Ok((values, at + k)),
        },
    }
}

/// The six numbers of `MM/DD/YYYY HH:MM:SS`, in the order written.
pub open spec fn spec_date_numbers(s: Seq<u8>) -> Result<(Seq<nat>, nat), ParseError> {
    let start = Ok::<(Seq<nat>, nat), ParseError>((Seq::<nat>::empty(), 0nat));
    let month = then_literal(then_digits(start, s, 2), s, SLASH.spec_bytes());
    let day = then_literal(then_digits(month, s, 2), s, SLASH.spec_bytes());
    let year = then_literal(then_digits(day, s, 4), s, SPACE.spec_bytes());
    let hour = then_literal(then_digits(year, s, 2), s, COLON.spec_bytes());
    let minute = then_literal(then_digits(hour, s, 2), s, COLON.spec_bytes());
    then_digits(minute, s, 2)
}

/// The optional suffix of a time: whether it is ` PM`, and the bytes it takes.
/// Anything but ` AM` and ` PM` is no suffix and is left unread.
pub open spec fn spec_meridiem(s: Seq<u8>) -> (bool, nat) {
    if AM_SUFFIX.spec_bytes().is_prefix_of(s) {
        (false, AM_SUFFIX.spec_bytes().len())
    } else if PM_SUFFIX.spec_bytes().is_prefix_of(s) {
        (true, PM_SUFFIX.spec_bytes().len())
    } else {
        (false, 0)
    }
}

/// The date and time that the six numbers and the suffix denote: the hour as
/// written, twelve hours later on the same day under ` PM`; nothing when the
/// date or the time as written does not exist.
pub open spec fn resolve_date(numbers: Seq<nat>, pm: bool) -> Option<DateTime> {
    match DateTime::spec_new(
        numbers[2] as i32,
        numbers[0] as u8,
        numbers[1] as u8,
        numbers[3] as u8,
        numbers[4] as u8,
        numbers[5] as u8,
    ) {
        None => None,
        Some(written) => Some(
            if pm {
                written.spec_plus_hours(12)
            } else {
                written
            },
        ),
    }
}

/// A date and time written as `MM/DD/YYYY HH:MM:SS`, optionally followed by
/// ` AM` or ` PM`. Text of that shape that names no real date or time is a
/// `ValueError`.
pub open spec fn spec_date_value(s: Seq<u8>) -> Result<(DateTime, nat), ParseError> {
    match spec_date_numbers(s) {
        Err(e) => Err(e),
        Ok((numbers, at)) => {
            let (pm, k) = spec_meridiem(s.skip(at as int));
            match resolve_date(numbers, pm) {
                None => Err(ParseError::ValueError),
                Some(date) => Ok((date, at + k)),
            }
        },
    }
}

/// A date and time that was read exists.
pub proof fn lemma_date_value_valid(s: Seq<u8>)
    ensures
        spec_date_value(s) matches Ok((date, _)) ==> date.is_valid(),
{
}

/// The six numbers of a date and time as they were written: month, day,
/// year, hour, minute, second.
pub struct DateNumbers {
    pub month: u32,
    pub day: u32,
    pub year: u32,
    pub hour: u32,
    pub minute: u32,
    pub second: u32,
}

impl View for DateNumbers {
    type V = Seq<nat>;

    open spec fn view(&self) -> Seq<nat> {
        seq![
            self.month as nat,
            self.day as nat,
            self.year as nat,
            self.hour as nat,
            self.minute as nat,
            self.second as nat,
        ]
    }
}

impl DateNumbers {
    /// Each number has no more digits than its place in the format holds.
    pub open spec fn in_range(self) -> bool {
        &&& self.month < 100
        &&& self.day < 100
        &&& self.year < 10000
        &&& self.hour < 100
        &&& self.minute < 100
        &&& self.second < 100
    }
}

/// Reads the six numbers of `MM/DD/YYYY HH:MM:SS` and the marks between them.
pub fn parse_date_numbers<'a>(input: &'a str) -> (r: Result<(&'a str, DateNumbers), ParseError>)
    ensures
        yields_view(r, input, spec_date_numbers(input.spec_bytes())),
        r matches Ok((_, numbers)) ==> numbers.in_range(),
{
    let ghost s = input.spec_bytes();
    let ghost start = Ok::<(Seq<nat>, nat), ParseError>((Seq::<nat>::empty(), 0nat));
    assert(s.skip(0) =~= s);
    proof {
        reveal_with_fuel(pow10, 5);
    }
    let (rest, month) = step_digits(input, input, 2, Ghost(start))?;
    let ghost st = then_digits(start, s, 2);
    let rest = step_literal(input, rest, SLASH, Ghost(st))?;
    let ghost st = then_literal(st, s, SLASH.spec_bytes());
    let (rest, day) = step_digits(input, rest, 2, Ghost(st))?;
    let ghost st = then_digits(st, s, 2);
    let rest = step_literal(input, rest, SLASH, Ghost(st))?;
    let ghost st = then_literal(st, s, SLASH.spec_bytes());
    let (rest, year) = step_digits(input, rest, 4, Ghost(st))?;
    let ghost st = then_digits(st, s, 4);
    let rest = step_literal(input, rest, SPACE, Ghost(st))?;
    let ghost st = then_literal(st, s, SPACE.spec_bytes());
    let (rest, hour) = step_digits(input, rest, 2, Ghost(st))?;
    let ghost st = then_digits(st, s, 2);
    let rest = step_literal(input, rest, COLON, Ghost(st))?;
    let ghost st = then_literal(st, s, COLON.spec_bytes());
    let (rest, minute) = step_digits(input, rest, 2, Ghost(st))?;
    let ghost st = then_digits(st, s, 2);
    let rest = step_literal(input, rest, COLON, Ghost(st))?;
    let ghost st = then_literal(st, s, COLON.spec_bytes());
    let (rest, second) = step_digits(input, rest, 2, Ghost(st))?;
    let ghost st = then_digits(st, s, 2);
    assert(st == spec_date_numbers(s));
    let numbers = DateNumbers { month, day, year, hour, minute, second };
    assert(st->Ok_0.0 =~= numbers@);
    Ok((rest, numbers))
}

/// Reads the optional ` AM` or ` PM`: whether it was ` PM`.
pub fn parse_meridiem<'a>(input: &'a str) -> (r: (&'a str, bool))
    ensures
        r.1 == spec_meridiem(input.spec_bytes()).0,
        is_rest_of(r.0, input, spec_meridiem(input.spec_bytes()).1),
{
    assert(input.spec_bytes().skip(0) =~= input.spec_bytes());
    match parse_literal(input, AM_SUFFIX) {
        Ok(rest) => (rest, false),
        Err(_) => match parse_literal(input, PM_SUFFIX) {
            Ok(rest) => (rest, true),
            Err(_) => (input, false),
        },
    }
}

/// Reads `MM/DD/YYYY HH:MM:SS` with an optional ` AM` or ` PM`.
pub fn parse_date_value<'a>(input: &'a str) -> (r: Result<(&'a str, DateTime), ParseError>)
    ensures
        yields_value(r, input, spec_date_value(input.spec_bytes())),
{
    let (suffix, numbers) = parse_date_numbers(input)?;
    let (rest, pm) = parse_meridiem(suffix);
    proof {
        let at = spec_date_numbers(input.spec_bytes())->Ok_0.1;
        let k = spec_meridiem(suffix.spec_bytes()).1;
        lemma_rest_of_rest(input, suffix, rest, at, k);
        assert(numbers@[0] == numbers.month && numbers@[1] == numbers.day && numbers@[2]
            == numbers.year);
        assert(numbers@[3] == numbers.hour && numbers@[4] == numbers.minute && numbers@[5]
            == numbers.second);
    }
    match DateTime::new(
        numbers.year as i32,
        numbers.month as u8,
        numbers.day as u8,
        numbers.hour as u8,
        numbers.minute as u8,
        numbers.second as u8,
    ) {
        None => Err(ParseError::ValueError),
        Some(written) => {
            let date = if pm {
                written.plus_hours(12)
            } else {
                written
            };
            Ok((rest, date))
        },
    }
}

/// Matches `literal` at `rest`, the input left after the steps recorded in
/// `state`.
fn step_literal<'a>(
    input: &'a str,
    rest: &'a str,
    literal: &str,
    Ghost(state): Ghost<Result<(Seq<nat>, nat), ParseError>>,
) -> (r: Result<&'a str, ParseError>)
    requires
        state matches Ok((_, at)) && is_rest_of(rest, input, at),
    ensures
        match then_literal(state, input.spec_bytes(), literal.spec_bytes()) {
            Ok((_, at)) => r matches Ok(after) && is_rest_of(after, input, at),
            Err(e) => r matches Err(f) && f == e,
        },
{
    let after = parse_literal(rest, literal)?;
    proof {
        let at = state->Ok_0.1;
        let k = literal.spec_bytes().len();
        assert(after.spec_bytes() =~= input.spec_bytes().skip(at + k as int));
    }
    Ok(after)
}

/// Reads `n` digits at `rest`, the input left after the steps recorded in
/// `state`.
fn step_digits<'a>(
    input: &'a str,
    rest: &'a str,
    n: usize,
    Ghost(state): Ghost<Result<(Seq<nat>, nat), ParseError>>,
) -> (r: Result<(&'a str, u32), ParseError>)
    requires
        1 <= n <= 9,
        state matches Ok((_, at)) && is_rest_of(rest, input, at),
    ensures
        match then_digits(state, input.spec_bytes(), n as nat) {
            Ok((values, at)) => r matches Ok((after, v)) && is_rest_of(after, input, at)
                && values == state->Ok_0.0.push(v as nat) && v < pow10(n as nat),
            Err(e) => r matches Err(f) && f == e,
        },
{
    proof {
        lemma_digits_bound(rest.spec_bytes(), n as nat);
        lemma_pow10_small(n as nat);
    }
    let (after, v) = take_n_digits(n, rest)?;
    proof {
        let at = state->Ok_0.1;
        assert(after.spec_bytes() =~= input.spec_bytes().skip(at + n));
    }
    Ok((after, v))
}

// ---------------------------------------------------------------------------
// Free text
// ---------------------------------------------------------------------------
/// The remaining input begins with [`TEXT_END`].
pub open spec fn at_text_end(r: Seq<u8>) -> bool {
    TEXT_END.spec_bytes().is_prefix_of(r)
}

/// [`at_text_end`] as the condition at which a scan stops.
pub open spec fn text_end_stop() -> spec_fn(Seq<u8>) -> bool {
    |r: Seq<u8>| at_text_end(r)
}

/// Number of bytes of `s` before the first occurrence of [`TEXT_END`];
/// `s.len()` when there is none.
pub open spec fn text_len(s: Seq<u8>) -> nat {
    scan_len(s, text_end_stop())
}

/// The free text of a comment or a ping: everything before the first
/// [`TEXT_END`], which is consumed with it. The terminator of the text's last
/// line belongs to the separator, not to the text.
pub open spec fn spec_multiline_text(s: Seq<u8>) -> Result<(Seq<u8>, nat), ParseError> {
    let n = text_len(s);
    if n < s.len() {
        Ok((s.take(n as int), n + TEXT_END.spec_bytes().len()))
    } else {
        Err(ParseError::IncompleteInput)
    }
}

/// The free text of a body, extended body, excerpt or keywords section: as
/// [`spec_multiline_text`], but the text keeps the terminator of its last line.
pub open spec fn spec_multiline_block(s: Seq<u8>) -> Result<(Seq<u8>, nat), ParseError> {
    let n = text_len(s);
    if n < s.len() {
        Ok((s.take(n + 1 as int), n + TEXT_END.spec_bytes().len()))
    } else {
        Err(ParseError::IncompleteInput)
    }
}

/// The bytes of [`TEXT_END`].
pub proof fn lemma_text_end_bytes()
    ensures
        TEXT_END.spec_bytes() =~= seq![0x0au8, 0x2d, 0x2d, 0x2d, 0x2d, 0x2d, 0x0a],
{
    reveal_strlit("\n-----\n");
    vstd::string::is_ascii_spec_bytes("\n-----\n");
}

/// Whether `lit` stands at position `at` of `bytes`.
fn starts_with_at(bytes: &[u8], at: usize, lit: &[u8]) -> (r: bool)
    requires
        at <= bytes.len(),
    ensures
        r == lit@.is_prefix_of(bytes@.skip(at as int)),
{
    if lit.len() > bytes.len() - at {
        return false;
    }
    let ghost tail = bytes@.skip(at as int);
    let mut i: usize = 0;
    while i < lit.len()
        invariant
            i <= lit.len(),
            lit.len() <= bytes.len() - at,
            at <= bytes.len(),
            tail == bytes@.skip(at as int),
            forall|j: int| 0 <= j < i ==> tail[j] == lit@[j],
        decreases lit.len() - i,
    {
        if bytes[at + i] != lit[i] {
            assert(!lit@.is_prefix_of(tail)) by {
                if lit@.is_prefix_of(tail) {
                    assert(tail.subrange(0, lit@.len() as int)[i as int] == lit@[i as int]);
                }
            }
            return false;
        }
        i += 1;
    }
    assert(lit@ =~= tail.subrange(0, lit@.len() as int));
    true
}

/// Finds the first occurrence of [`TEXT_END`], if any.
fn find_text_end(bytes: &[u8]) -> (n: usize)
    ensures
        n == text_len(bytes@),
        n <= bytes.len(),
{
    let end = TEXT_END.as_bytes();
    let mut i: usize = 0;
    while i < bytes.len()
        invariant
            i <= bytes.len(),
            end@ == TEXT_END.spec_bytes(),
            forall|j: int| 0 <= j < i ==> !#[trigger] text_end_stop()(bytes@.skip(j)),
        decreases bytes.len() - i,
    {
        if starts_with_at(bytes, i, end) {
            proof {
                lemma_scan_len_is(bytes@, text_end_stop(), i as nat);
            }
            return i;
        }
        i += 1;
    }
    proof {
        lemma_scan_len_is(bytes@, text_end_stop(), i as nat);
    }
    i
}

/// Reads the free text of a comment or a ping and consumes the separator that
/// ends it.
pub fn parse_multiline_text<'a>(input: &'a str) -> (r: Result<(&'a str, &'a str), ParseError>)
    ensures
        yields_text(r, input, spec_multiline_text(input.spec_bytes())),
{
    let bytes = input.as_bytes();
    let n = find_text_end(bytes);
    if n >= bytes.len() {
        return Err(ParseError::IncompleteInput);
    }
    proof {
        lemma_scan_len_props(bytes@, text_end_stop());
        lemma_text_end_bytes();
        lemma_str_bytes_valid(input);
        assert(bytes@.skip(n as int)[0] == bytes@[n as int]);
        assert(bytes@.skip(n as int).subrange(0, 7)[0] == 0x0a);
        lemma_boundary_around_ascii(bytes@, n as int);
    }
    let (text, tail) = split_at_byte(input, n);
    let rest = parse_literal(tail, TEXT_END)?;
    assert(rest.spec_bytes() =~= bytes@.skip(n + TEXT_END.spec_bytes().len()));
    Ok((rest, text))
}

/// A plain section: the header line `header`, then the free text.
pub open spec fn spec_headed_block(s: Seq<u8>, header: Seq<u8>) -> Result<
    (Seq<u8>, nat),
    ParseError,
> {
    match spec_literal(s, header) {
        Err(e) => Err(e),
        Ok(k) => shifted(k, spec_multiline_block(s.skip(k as int))),
    }
}

/// Reads the free text of a plain section, keeping the terminator of its last
/// line, and consumes the separator that ends it.
pub fn parse_multiline_block<'a>(input: &'a str) -> (r: Result<(&'a str, &'a str), ParseError>)
    ensures
        yields_text(r, input, spec_multiline_block(input.spec_bytes())),
{
    let bytes = input.as_bytes();
    let n = find_text_end(bytes);
    if n >= bytes.len() {
        return Err(ParseError::IncompleteInput);
    }
    proof {
        lemma_scan_len_props(bytes@, text_end_stop());
        lemma_text_end_bytes();
        lemma_str_bytes_valid(input);
        assert(bytes@.skip(n as int)[0] == bytes@[n as int]);
        assert(bytes@.skip(n as int).subrange(0, 7)[0] == 0x0a);
        assert(bytes@.skip(n as int).subrange(0, 7)[6] == 0x0a);
        assert(bytes@.skip(n as int)[6] == bytes@[n + 6]);
        lemma_boundary_around_ascii(bytes@, n as int);
        lemma_boundary_around_ascii(bytes@, n + 6);
    }
    let (text, _) = split_at_byte(input, n + 1);
    let (_, rest) = split_at_byte(input, n + 7);
    Ok((rest, text))
}

/// Reads a plain section that begins with the line `header`.
pub fn parse_headed_block<'a>(input: &'a str, header: &str) -> (r: Result<
    (&'a str, &'a str),
    ParseError,
>)
    ensures
        yields_text(r, input, spec_headed_block(input.spec_bytes(), header.spec_bytes())),
{
    let contents = parse_literal(input, header)?;
    let (rest, text) = parse_multiline_block(contents)?;
    proof {
        let k = header.spec_bytes().len();
        let n = spec_multiline_block(contents.spec_bytes())->Ok_0.1;
        lemma_rest_of_rest(input, contents, rest, k, n);
    }
    Ok((rest, text))
}

} // verus!
