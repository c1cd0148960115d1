//! What a parser hands back, in executable form and as a mathematical model.

use vstd::prelude::*;

verus! {

/// Why a parser turned its input down.
#[derive(Debug, PartialEq, Eq, Clone, Copy, Structural)]
pub enum ErrorKind {
    /// A literal keyword was expected and the input differs from it.
    Tag,
    /// No alternative of a rule matched.
    Alt,
    /// A literal character was expected, or a character is malformed or illegal.
    Char,
    /// A number grew past the bound of its rule.
    Digit,
    /// A run of at least one byte of a class was expected.
    TakeWhile1,
    /// The input ended where a rule does not wait for more.
    Complete,
    /// A byte is not in the class that the rule asks for.
    Verify,
}

/// A failed parse.
#[derive(Debug, PartialEq, Eq, Clone, Copy)]
pub enum Failure<'a> {
    /// The input may be a truncated prefix; so many more bytes are asked for.
    Incomplete(usize),
    /// The input is turned down at the given remainder.
    Error(&'a [u8], ErrorKind),
    /// The caller's output array is full; so many entries were written.
    CapacityExhausted(usize),
}

/// The result of a parser: the unconsumed remainder and the value, or a failure.
pub type IResult<'a, T> = Result<(&'a [u8], T), Failure<'a>>;

/// The mathematical outcome of a parser on a byte sequence.
pub enum Parse<T> {
    /// The rule matched: the remainder and the value.
    Done(Seq<u8>, T),
    /// More input is asked for.
    Incomplete(usize),
    /// The rule is turned down at the given remainder.
    Error(Seq<u8>, ErrorKind),
    /// The output array was full after so many entries.
    CapacityExhausted(usize),
}

impl<T> Parse<T> {
    /// The same outcome with its value replaced by `f` of it.
    pub open spec fn map<U>(self, f: spec_fn(T) -> U) -> Parse<U> {
        match self {
            Parse::Done(rest, value) => Parse::Done(rest, f(value)),
            Parse::Incomplete(n) => Parse::Incomplete(n),
            Parse::Error(at, kind) => Parse::Error(at, kind),
            Parse::CapacityExhausted(n) => Parse::CapacityExhausted(n),
        }
    }

    /// Sequencing: where this outcome is a match, the outcome of `next` on the
    /// remainder and the value; otherwise this failure.
    pub open spec fn and_then<U>(self, next: spec_fn(Seq<u8>, T) -> Parse<U>) -> Parse<U> {
        match self {
            Parse::Done(rest, value) => next(rest, value),
            Parse::Incomplete(n) => Parse::Incomplete(n),
            Parse::Error(at, kind) => Parse::Error(at, kind),
            Parse::CapacityExhausted(n) => Parse::CapacityExhausted(n),
        }
    }

    /// Alternation: `other` takes over where this outcome is a plain mismatch;
    /// a match and every other failure stand.
    pub open spec fn or(self, other: Parse<T>) -> Parse<T> {
        match self {
            Parse::Error(_, _) => other,
            _ => self,
        }
    }

    /// Alternation that does not go back: `other` takes over only where this
    /// outcome turns the input `s` down at its very start, before any byte
    /// was taken. A mismatch further in stands, with its kind and its place.
    pub open spec fn or_at(self, s: Seq<u8>, other: Parse<T>) -> Parse<T> {
        match self {
            Parse::Error(at, _) => if at.len() == s.len() {
                other
            } else {
                self
            },
            _ => self,
        }
    }

    /// An optional rule: a plain mismatch becomes a match of nothing on `s`.
    pub open spec fn optional(self, s: Seq<u8>) -> Parse<Option<T>> {
        match self {
            Parse::Done(rest, value) => Parse::Done(rest, Some(value)),
            Parse::Incomplete(n) => Parse::Incomplete(n),
            Parse::Error(_, _) => Parse::Done(s, None),
            Parse::CapacityExhausted(n) => Parse::CapacityExhausted(n),
        }
    }
}

/// `r` is what is left of `s` after some of its bytes.
pub open spec fn is_tail(r: Seq<u8>, s: Seq<u8>) -> bool {
    r.len() <= s.len() && r == s.skip(s.len() - r.len())
}

impl<T> Parse<T> {
    /// The remainder of a match, and the place where the input is turned
    /// down, are tails of the input `s`.
    pub open spec fn within(self, s: Seq<u8>) -> bool {
        match self {
            Parse::Done(rest, _) => is_tail(rest, s),
            Parse::Error(at, _) => is_tail(at, s),
            _ => true,
        }
    }
}

/// A tail of a tail is a tail.
pub proof fn lemma_tail_of_tail(a: Seq<u8>, b: Seq<u8>, c: Seq<u8>)
    requires
        is_tail(a, b),
        is_tail(b, c),
    ensures
        is_tail(a, c),
{
    assert(c.skip(c.len() - b.len()).skip(b.len() - a.len()) =~= c.skip(c.len() - a.len()));
}

/// An outcome within a tail of `s` is within `s`.
pub proof fn lemma_within_tail<T>(p: Parse<T>, r: Seq<u8>, s: Seq<u8>)
    requires
        p.within(r),
        is_tail(r, s),
    ensures
        p.within(s),
{
    match p {
        Parse::Done(rest, _) => lemma_tail_of_tail(rest, r, s),
        Parse::Error(at, _) => lemma_tail_of_tail(at, r, s),
        _ => {},
    }
}

/// What is left after `k` bytes is a tail.
pub proof fn lemma_skip_is_tail(s: Seq<u8>, k: int)
    requires
        0 <= k <= s.len(),
    ensures
        is_tail(s.skip(k), s),
        is_tail(s, s),
{
    assert(s.skip(0) =~= s);
}

/// An executable result `r` is the failure that the outcome `p` is.
pub open spec fn fails_as<'a, T, U>(r: IResult<'a, T>, p: Parse<U>) -> bool {
    match p {
        Parse::Done(_, _) => false,
        Parse::Incomplete(n) => r matches Err(Failure::Incomplete(m)) && m == n,
        Parse::Error(at, kind) => r matches Err(Failure::Error(i, k)) && i@ == at && k == kind,
        Parse::CapacityExhausted(n) => r matches Err(Failure::CapacityExhausted(m)) && m == n,
    }
}

/// An executable result `r` is exactly the outcome `p`, value by view.
pub open spec fn yields<'a, T: View>(r: IResult<'a, T>, p: Parse<T::V>) -> bool {
    match p {
        Parse::Done(rest, value) => r matches Ok((i, o)) && i@ == rest && o@ == value,
        _ => fails_as(r, p),
    }
}

/// The outcome of reading one byte and testing it: `Verify` where the test fails.
pub open spec fn byte_where(s: Seq<u8>, class: spec_fn(u8) -> bool) -> Parse<u8> {
    if s.len() == 0 {
        Parse::Incomplete(1)
    } else if class(s[0]) {
        Parse::Done(s.skip(1), s[0])
    } else {
        Parse::Error(s, ErrorKind::Verify)
    }
}

/// Reads one byte and keeps it where `f` accepts it.
pub(crate) fn map_byte<'a, F: Fn(u8) -> bool>(
    input: &'a [u8],
    f: F,
    Ghost(class): Ghost<spec_fn(u8) -> bool>,
) -> (r: IResult<'a, u8>)
    requires
        forall|b: u8| call_requires(f, (b,)),
        forall|b: u8, ok: bool| call_ensures(f, (b,), ok) ==> ok == class(b),
    ensures
        yields(r, byte_where(input@, class)),
{
    if input.len() == 0 {
        return Err(Failure::Incomplete(1));
    }
    let b = input[0];
    if f(b) {
        Ok((&input[1..input.len()], b))
    } else {
        Err(Failure::Error(input, ErrorKind::Verify))
    }
}

/// Reads one byte.
pub open spec fn spec_one_byte(s: Seq<u8>) -> Parse<u8> {
    if s.len() == 0 {
        Parse::Incomplete(1)
    } else {
        Parse::Done(s.skip(1), s[0])
    }
}

/// Reads one byte, whatever it is.
pub fn one_byte<'a>(input: &'a [u8]) -> (r: IResult<'a, u8>)
    ensures
        yields(r, spec_one_byte(input@)),
{
    if input.len() == 0 {
        Err(Failure::Incomplete(1))
    } else {
        Ok((&input[1..input.len()], input[0]))
    }
}

/// The byte `c` as a member of a class of one: a mismatch is `Verify`.
pub open spec fn the_byte(s: Seq<u8>, c: u8) -> Parse<u8> {
    byte_where(s, |b: u8| b == c)
}

/// Reads the byte `c`.
pub fn byte<'a>(input: &'a [u8], c: u8) -> (r: IResult<'a, u8>)
    ensures
        yields(r, the_byte(input@, c)),
{
    let (rest, b) = one_byte(input)?;
    if b == c {
        Ok((rest, b))
    } else {
        Err(Failure::Error(input, ErrorKind::Verify))
    }
}

/// The byte `c` as a literal character: a mismatch is `Char`.
pub open spec fn the_char(s: Seq<u8>, c: u8) -> Parse<u8> {
    if s.len() == 0 {
        Parse::Incomplete(1)
    } else if s[0] == c {
        Parse::Done(s.skip(1), c)
    } else {
        Parse::Error(s, ErrorKind::Char)
    }
}

/// Reads the literal character `c`.
pub fn character<'a>(input: &'a [u8], c: u8) -> (r: IResult<'a, u8>)
    ensures
        yields(r, the_char(input@, c)),
{
    let (rest, b) = one_byte(input)?;
    if b == c {
        Ok((rest, b))
    } else {
        Err(Failure::Error(input, ErrorKind::Char))
    }
}

/// The outcome of a literal keyword on a streaming input: a mismatch within
/// the bytes at hand is `Tag`; a proper prefix of the keyword asks for the
/// keyword's full length.
pub open spec fn keyword(s: Seq<u8>, word: Seq<u8>) -> Parse<Seq<u8>> {
    if exists|i: int| 0 <= i < s.len() && i < word.len() && s[i] != word[i] {
        Parse::Error(s, ErrorKind::Tag)
    } else if s.len() < word.len() {
        Parse::Incomplete(word.len() as usize)
    } else {
        Parse::Done(s.skip(word.len() as int), s.take(word.len() as int))
    }
}

/// Matches the literal `word` at the start of `input`.
pub fn tag<'a>(input: &'a [u8], word: &[u8]) -> (r: IResult<'a, &'a [u8]>)
    ensures
        yields(r, keyword(input@, word@)),
{
    let m = if input.len() < word.len() { input.len() } else { word.len() };
    let mut i: usize = 0;
    while i < m
        invariant
            i <= m,
            m <= input@.len(),
            m <= word@.len(),
            forall|j: int| 0 <= j < i ==> input@[j] == word@[j],
        decreases m - i,
    {
        if input[i] != word[i] {
            return Err(Failure::Error(input, ErrorKind::Tag));
        }
        i += 1;
    }
    if input.len() < word.len() {
        Err(Failure::Incomplete(word.len()))
    } else {
        Ok((&input[word.len()..input.len()], &input[0..word.len()]))
    }
}

/// A letter of either case as its lower-case form; any other byte as it is.
pub open spec fn spec_lower(b: u8) -> u8 {
    if 'A' as u8 <= b <= 'Z' as u8 {
        (b + 32) as u8
    } else {
        b
    }
}

#[verifier::when_used_as_spec(spec_lower)]
pub fn lower(b: u8) -> (r: u8)
    ensures
        r == spec_lower(b),
{
    if 'A' as u8 <= b && b <= 'Z' as u8 {
        b + 32
    } else {
        b
    }
}

/// A literal keyword as [`keyword`], with letters compared without their case.
pub open spec fn keyword_no_case(s: Seq<u8>, word: Seq<u8>) -> Parse<Seq<u8>> {
    if exists|i: int| 0 <= i < s.len() && i < word.len() && lower(s[i]) != lower(word[i]) {
        Parse::Error(s, ErrorKind::Tag)
    } else if s.len() < word.len() {
        Parse::Incomplete(word.len() as usize)
    } else {
        Parse::Done(s.skip(word.len() as int), s.take(word.len() as int))
    }
}

/// Matches the literal `word` at the start of `input`, whatever the case of
/// the letters on either side.
pub fn tag_no_case<'a>(input: &'a [u8], word: &[u8]) -> (r: IResult<'a, &'a [u8]>)
    ensures
        yields(r, keyword_no_case(input@, word@)),
{
    let m = if input.len() < word.len() { input.len() } else { word.len() };
    let mut i: usize = 0;
    while i < m
        invariant
            i <= m,
            m <= input@.len(),
            m <= word@.len(),
            forall|j: int| 0 <= j < i ==> lower(input@[j]) == lower(word@[j]),
        decreases m - i,
    {
        if lower(input[i]) != lower(word[i]) {
            return Err(Failure::Error(input, ErrorKind::Tag));
        }
        i += 1;
    }
    if input.len() < word.len() {
        Err(Failure::Incomplete(word.len()))
    } else {
        Ok((&input[word.len()..input.len()], &input[0..word.len()]))
    }
}

/// How many of the indices 0, 1, 2, ... below `max` satisfy `ok` before the
/// first one that does not.
pub open spec fn leading_count(max: nat, ok: spec_fn(nat) -> bool) -> nat
    decreases max,
{
    if max == 0 {
        0
    } else {
        let n = leading_count((max - 1) as nat, ok);
        if n == max - 1 && ok(n) {
            n + 1
        } else {
            n
        }
    }
}

/// A leading count never passes its limit, and every index below it
/// satisfies the test.
pub proof fn lemma_leading_count_bounds(max: nat, ok: spec_fn(nat) -> bool)
    ensures
        leading_count(max, ok) <= max,
        forall|i: nat| i < leading_count(max, ok) ==> #[trigger] ok(i),
    decreases max,
{
    if max > 0 {
        lemma_leading_count_bounds((max - 1) as nat, ok);
    }
}

/// A count that has met an index failing the test stays there whatever the
/// limit.
pub proof fn lemma_leading_count_stops(n: nat, max: nat, ok: spec_fn(nat) -> bool)
    requires
        n <= max,
        leading_count(n, ok) == n,
        !ok(n),
    ensures
        leading_count(max, ok) == n,
    decreases max,
{
    if max > n {
        lemma_leading_count_stops(n, (max - 1) as nat, ok);
    }
}

/// A count that has gone through all indices below `n` is the limit itself
/// for every limit up to `n`, and goes past `n` under a larger limit where
/// `n` satisfies the test too.
pub proof fn lemma_leading_count_reaches(n: nat, max: nat, ok: spec_fn(nat) -> bool)
    requires
        leading_count(n, ok) == n,
    ensures
        max <= n ==> leading_count(max, ok) == max,
        max > n && ok(n) ==> leading_count(max, ok) > n,
    decreases max,
{
    lemma_leading_count_bounds(n, ok);
    lemma_leading_count_bounds(max, ok);
    if max > 0 {
        lemma_leading_count_reaches(n, (max - 1) as nat, ok);
    }
    if max <= n {
        lemma_leading_count_full(max, ok);
    }
}

/// Where every index below `max` satisfies the test, the count is `max`.
pub proof fn lemma_leading_count_full(max: nat, ok: spec_fn(nat) -> bool)
    requires
        forall|i: nat| i < max ==> #[trigger] ok(i),
    ensures
        leading_count(max, ok) == max,
    decreases max,
{
    if max > 0 {
        lemma_leading_count_full((max - 1) as nat, ok);
    }
}

/// The number of leading bytes of `s` in `class`, at most `max`.
pub open spec fn class_run(s: Seq<u8>, max: nat, class: spec_fn(u8) -> bool) -> nat {
    leading_count(max, |i: nat| i < s.len() && class(s[i as int]))
}

/// A run of a class never passes its limit nor the end of the input.
pub proof fn lemma_class_run_bounds(s: Seq<u8>, max: nat, class: spec_fn(u8) -> bool)
    ensures
        class_run(s, max, class) <= max,
        class_run(s, max, class) <= s.len(),
        forall|i: int| 0 <= i < class_run(s, max, class) ==> class(#[trigger] s[i]),
{
    let ok = |i: nat| i < s.len() && class(s[i as int]);
    lemma_leading_count_bounds(max, ok);
    let n = leading_count(max, ok);
    if n > 0 {
        assert(ok((n - 1) as nat));
    }
    assert forall|i: int| 0 <= i < n implies class(s[i]) by {
        assert(ok(i as nat));
    }
}

/// A run that has met the end of the input or a byte outside the class stays
/// there whatever the limit.
pub proof fn lemma_class_run_stops(s: Seq<u8>, n: nat, max: nat, class: spec_fn(u8) -> bool)
    requires
        n <= max,
        class_run(s, n, class) == n,
        n == s.len() || !class(s[n as int]),
    ensures
        class_run(s, max, class) == n,
{
    lemma_leading_count_stops(n, max, |i: nat| i < s.len() && class(s[i as int]));
}

/// A run that can take the byte at `n` in reaches past it under any larger limit.
pub proof fn lemma_class_run_reaches(s: Seq<u8>, n: nat, max: nat, class: spec_fn(u8) -> bool)
    requires
        n < max,
        class_run(s, n, class) == n,
        n < s.len(),
        class(s[n as int]),
    ensures
        class_run(s, max, class) > n,
{
    lemma_leading_count_reaches(n, max, |i: nat| i < s.len() && class(s[i as int]));
}

/// The longest run of `class` bytes at the start of a streaming input. A run
/// that reaches the end of the input may go on, so more input is asked for.
pub open spec fn run(s: Seq<u8>, class: spec_fn(u8) -> bool) -> Parse<Seq<u8>> {
    let n = class_run(s, s.len(), class);
    if n == s.len() {
        Parse::Incomplete(1)
    } else {
        Parse::Done(s.skip(n as int), s.take(n as int))
    }
}

/// A run as [`run`], of at least one byte: `TakeWhile1` where the first byte
/// is outside the class.
pub open spec fn run1(s: Seq<u8>, class: spec_fn(u8) -> bool) -> Parse<Seq<u8>> {
    let n = class_run(s, s.len(), class);
    if n == s.len() {
        Parse::Incomplete(1)
    } else if n == 0 {
        Parse::Error(s, ErrorKind::TakeWhile1)
    } else {
        Parse::Done(s.skip(n as int), s.take(n as int))
    }
}

/// The longest run of `class` bytes at the start of `s`, which may be empty
/// and ends with the input.
pub open spec fn many(s: Seq<u8>, class: spec_fn(u8) -> bool) -> Parse<Seq<u8>> {
    let n = class_run(s, s.len(), class);
    Parse::Done(s.skip(n as int), s.take(n as int))
}

/// A first byte of `class` and the longest run of `class` bytes that it
/// starts. The rule waits for its first byte only: a run that reaches the end
/// of the input is complete.
pub open spec fn at_least_one(s: Seq<u8>, class: spec_fn(u8) -> bool) -> Parse<Seq<u8>> {
    byte_where(s, class).and_then(|r: Seq<u8>, b: u8| many(s, class))
}

/// The rules of single bytes and of runs stay within their input.
pub proof fn lemma_bytes_within(s: Seq<u8>, class: spec_fn(u8) -> bool, c: u8)
    ensures
        spec_one_byte(s).within(s),
        byte_where(s, class).within(s),
        the_byte(s, c).within(s),
        the_char(s, c).within(s),
        run(s, class).within(s),
        run1(s, class).within(s),
        many(s, class).within(s),
        at_least_one(s, class).within(s),
{
    lemma_class_run_bounds(s, s.len(), class);
    lemma_skip_is_tail(s, class_run(s, s.len(), class) as int);
    if s.len() > 0 {
        lemma_skip_is_tail(s, 1);
    }
}

/// A keyword stays within its input.
pub proof fn lemma_keyword_within(s: Seq<u8>, word: Seq<u8>)
    ensures
        keyword(s, word).within(s),
        keyword_no_case(s, word).within(s),
{
    lemma_skip_is_tail(s, 0);
    if word.len() <= s.len() {
        lemma_skip_is_tail(s, word.len() as int);
    }
}

/// Counts the bytes at the start of `input` that `f` accepts.
pub(crate) fn count_while<F: Fn(u8) -> bool>(
    input: &[u8],
    f: F,
    Ghost(class): Ghost<spec_fn(u8) -> bool>,
) -> (n: usize)
    requires
        forall|b: u8| call_requires(f, (b,)),
        forall|b: u8, ok: bool| call_ensures(f, (b,), ok) ==> ok == class(b),
    ensures
        n == class_run(input@, input@.len(), class),
        n <= input@.len(),
{
    let mut n: usize = 0;
    while n < input.len()
        invariant
            n <= input@.len(),
            class_run(input@, n as nat, class) == n,
            forall|b: u8| call_requires(f, (b,)),
            forall|b: u8, ok: bool| call_ensures(f, (b,), ok) ==> ok == class(b),
        decreases input@.len() - n,
    {
        if !f(input[n]) {
            proof {
                lemma_class_run_stops(input@, n as nat, input@.len(), class);
            }
            return n;
        }
        n += 1;
    }
    n
}

/// Splits off the longest run of bytes that `f` accepts, be it empty or the
/// whole input.
pub(crate) fn many_of<'a, F: Fn(u8) -> bool>(
    input: &'a [u8],
    f: F,
    Ghost(class): Ghost<spec_fn(u8) -> bool>,
) -> (r: IResult<'a, &'a [u8]>)
    requires
        forall|b: u8| call_requires(f, (b,)),
        forall|b: u8, ok: bool| call_ensures(f, (b,), ok) ==> ok == class(b),
    ensures
        yields(r, many(input@, class)),
{
    let n = count_while(input, f, Ghost(class));
    Ok((&input[n..input.len()], &input[0..n]))
}

/// Splits off a run of at least one byte that `f` accepts.
pub(crate) fn at_least_one_of<'a, F: Fn(u8) -> bool>(
    input: &'a [u8],
    f: F,
    Ghost(class): Ghost<spec_fn(u8) -> bool>,
) -> (r: IResult<'a, &'a [u8]>)
    requires
        forall|b: u8| call_requires(f, (b,)),
        forall|b: u8, ok: bool| call_ensures(f, (b,), ok) ==> ok == class(b),
    ensures
        yields(r, at_least_one(input@, class)),
{
    let _ = map_byte(input, &f, Ghost(class))?;
    many_of(input, f, Ghost(class))
}

/// Splits off the longest run of bytes that `f` accepts.
pub(crate) fn take_while<'a, F: Fn(u8) -> bool>(
    input: &'a [u8],
    f: F,
    Ghost(class): Ghost<spec_fn(u8) -> bool>,
) -> (r: IResult<'a, &'a [u8]>)
    requires
        forall|b: u8| call_requires(f, (b,)),
        forall|b: u8, ok: bool| call_ensures(f, (b,), ok) ==> ok == class(b),
    ensures
        yields(r, run(input@, class)),
{
    let n = count_while(input, f, Ghost(class));
    if n == input.len() {
        Err(Failure::Incomplete(1))
    } else {
        Ok((&input[n..input.len()], &input[0..n]))
    }
}

/// Splits off the longest run of bytes that `f` accepts, which must not be
/// empty.
pub(crate) fn take_while1<'a, F: Fn(u8) -> bool>(
    input: &'a [u8],
    f: F,
    Ghost(class): Ghost<spec_fn(u8) -> bool>,
) -> (r: IResult<'a, &'a [u8]>)
    requires
        forall|b: u8| call_requires(f, (b,)),
        forall|b: u8, ok: bool| call_ensures(f, (b,), ok) ==> ok == class(b),
    ensures
        yields(r, run1(input@, class)),
{
    let n = count_while(input, f, Ghost(class));
    if n == input.len() {
        Err(Failure::Incomplete(1))
    } else if n == 0 {
        Err(Failure::Error(input, ErrorKind::TakeWhile1))
    } else {
        Ok((&input[n..input.len()], &input[0..n]))
    }
}

} // verus!
