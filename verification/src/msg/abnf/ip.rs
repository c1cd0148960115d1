//! Literal IPv4 and IPv6 addresses.

use vstd::prelude::*;
use crate::msg::abnf::digit::{dec_u8, h16, lemma_digits_within, spec_dec_u8, spec_h16};
use crate::msg::abnf::outcome::{
    character, fails_as, is_tail, keyword, lemma_bytes_within, lemma_keyword_within,
    lemma_skip_is_tail, lemma_within_tail, tag, the_char, yields, ErrorKind, Failure, IResult,
    Parse,
};

verus! {

/// `IPv4address = 1*3DIGIT "." 1*3DIGIT "." 1*3DIGIT "." 1*3DIGIT`, as its
/// four octets.
pub open spec fn spec_ipv4address(s: Seq<u8>) -> Parse<Seq<u8>> {
    spec_dec_u8(s).and_then(
        |r1: Seq<u8>, a: u8|
            the_char(r1, 0x2e).and_then(
                |r2: Seq<u8>, dot: u8|
                    spec_dec_u8(r2).and_then(
                        |r3: Seq<u8>, b: u8|
                            the_char(r3, 0x2e).and_then(
                                |r4: Seq<u8>, dot: u8|
                                    spec_dec_u8(r4).and_then(
                                        |r5: Seq<u8>, c: u8|
                                            the_char(r5, 0x2e).and_then(
                                                |r6: Seq<u8>, dot: u8|
                                                    spec_dec_u8(r6).map(|d: u8| seq![a, b, c, d]),
                                            ),
                                    ),
                            ),
                    ),
            ),
    )
}

/// A dotted quad.
pub fn ipv4address<'a>(input: &'a [u8]) -> (r: IResult<'a, [u8; 4]>)
    ensures
        yields(r, spec_ipv4address(input@)),
{
    let (rest, a) = dec_u8(input)?;
    let (rest, _) = character(rest, 0x2e)?;
    let (rest, b) = dec_u8(rest)?;
    let (rest, _) = character(rest, 0x2e)?;
    let (rest, c) = dec_u8(rest)?;
    let (rest, _) = character(rest, 0x2e)?;
    let (rest, d) = dec_u8(rest)?;
    let octets = [a, b, c, d];
    assert(octets@ =~= seq![a, b, c, d]);
    Ok((rest, octets))
}

/// `":" h16`.
pub open spec fn spec_colon_and_h16(s: Seq<u8>) -> Parse<u16> {
    the_char(s, 0x3a).and_then(|r: Seq<u8>, colon: u8| spec_h16(r))
}

/// A colon and the 16-bit group after it.
pub fn colon_and_h16<'a>(input: &'a [u8]) -> (r: IResult<'a, u16>)
    ensures
        yields(r, spec_colon_and_h16(input@)),
{
    let (rest, _) = character(input, 0x3a)?;
    h16(rest)
}

/// The low 32 bits of an IPv6 address as they were written.
#[derive(Debug, PartialEq, Eq, Clone, Copy)]
pub enum Ls32 {
    /// Two 16-bit groups.
    Hex(u16, u16),
    /// An embedded IPv4 address, by its octets.
    V4([u8; 4]),
}

/// The value of an [`Ls32`], with the octets as a sequence.
pub enum Ls32View {
    Hex(u16, u16),
    V4(Seq<u8>),
}

impl View for Ls32 {
    type V = Ls32View;

    open spec fn view(&self) -> Ls32View {
        match *self {
            Ls32::Hex(a, b) => Ls32View::Hex(a, b),
            Ls32::V4(octets) => Ls32View::V4(octets@),
        }
    }
}

impl Ls32View {
    /// The two groups that the value stands for: octets fold pairwise,
    /// the first of each pair in the high byte.
    pub open spec fn segments(self) -> (u16, u16) {
        match self {
            Ls32View::Hex(a, b) => (a, b),
            Ls32View::V4(o) => ((o[0] * 256 + o[1]) as u16, (o[2] * 256 + o[3]) as u16),
        }
    }
}

impl Ls32 {
    /// The two 16-bit groups.
    pub fn segments(self) -> (r: (u16, u16))
        ensures
            r == self@.segments(),
    {
        match self {
            Ls32::Hex(a, b) => (a, b),
            Ls32::V4(octets) => {
                let a = octets[0] as u16;
                let b = octets[1] as u16;
                let c = octets[2] as u16;
                let d = octets[3] as u16;
                (a * 256 + b, c * 256 + d)
            },
        }
    }
}

/// `ls32 = ( h16 ":" h16 ) / IPv4address`: the pair of groups comes first,
/// the dotted quad where the pair does not match.
pub open spec fn spec_ls32(s: Seq<u8>) -> Parse<Ls32View> {
    spec_h16(s).and_then(
        |r: Seq<u8>, a: u16| spec_colon_and_h16(r).map(|b: u16| Ls32View::Hex(a, b)),
    ).or(spec_ipv4address(s).map(|o: Seq<u8>| Ls32View::V4(o))).or(
        Parse::Error(s, ErrorKind::Alt),
    )
}

/// The low 32 bits of an IPv6 address.
pub fn ls32<'a>(input: &'a [u8]) -> (r: IResult<'a, Ls32>)
    ensures
        yields(r, spec_ls32(input@)),
{
    match hex_pair(input) {
        Ok((rest, pair)) => Ok((rest, Ls32::Hex(pair.0, pair.1))),
        Err(Failure::Error(_, _)) => match ipv4address(input) {
            Ok((rest, octets)) => Ok((rest, Ls32::V4(octets))),
            Err(Failure::Error(_, _)) => Err(Failure::Error(input, ErrorKind::Alt)),
            Err(e) => Err(e),
        },
        Err(e) => Err(e),
    }
}

fn hex_pair<'a>(input: &'a [u8]) -> (r: IResult<'a, (u16, u16)>)
    ensures
        yields(
            r,
            spec_h16(input@).and_then(
                |r: Seq<u8>, a: u16| spec_colon_and_h16(r).map(|b: u16| (a, b)),
            ),
        ),
{
    let (rest, a) = h16(input)?;
    let (rest, b) = colon_and_h16(rest)?;
    Ok((rest, (a, b)))
}

/// `":" ls32`.
pub open spec fn spec_colon_and_ls32(s: Seq<u8>) -> Parse<Ls32View> {
    the_char(s, 0x3a).and_then(|r: Seq<u8>, colon: u8| spec_ls32(r))
}

/// A colon and the low 32 bits after it.
pub fn colon_and_ls32<'a>(input: &'a [u8]) -> (r: IResult<'a, Ls32>)
    ensures
        yields(r, spec_colon_and_ls32(input@)),
{
    let (rest, _) = character(input, 0x3a)?;
    ls32(rest)
}

/// Exactly `k` groups, one colon between each two: `h16 *( ":" h16 )`.
pub open spec fn groups_exact(s: Seq<u8>, k: nat) -> Parse<Seq<u16>>
    decreases k,
{
    if k <= 1 {
        spec_h16(s).map(|a: u16| seq![a])
    } else {
        groups_exact(s, (k - 1) as nat).and_then(
            |r: Seq<u8>, g: Seq<u16>| spec_colon_and_h16(r).map(|a: u16| g.push(a)),
        )
    }
}

/// A group and as many of up to `k - 1` further `":" h16` as are there.
pub open spec fn groups_greedy(s: Seq<u8>, k: nat) -> Parse<Seq<u16>>
    decreases k,
{
    if k <= 1 {
        spec_h16(s).map(|a: u16| seq![a])
    } else {
        groups_greedy(s, (k - 1) as nat).and_then(
            |r: Seq<u8>, g: Seq<u16>|
                spec_colon_and_h16(r).optional(r).map(
                    |o: Option<u16>|
                        match o {
                            Some(a) => g.push(a),
                            None => g,
                        },
                ),
        )
    }
}

/// The two groups of an `ls32`, as a sequence.
pub open spec fn low_groups(l: Ls32View) -> Seq<u16> {
    seq![l.segments().0, l.segments().1]
}

/// The groups written before the `::` of the shape that leaves room for at
/// most `j - 1` of them; none where `j` is 1.
#[verifier::opaque]
pub open spec fn leading(s: Seq<u8>, j: nat) -> Parse<Seq<u16>> {
    if j <= 1 {
        Parse::Done(s, Seq::empty())
    } else {
        groups_greedy(s, (j - 1) as nat).optional(s).map(
            |o: Option<Seq<u16>>|
                match o {
                    Some(g) => g,
                    None => Seq::empty(),
                },
        )
    }
}

/// The `8 - j` groups that the shape `j` asks for after its `::`: up to five
/// groups and an `ls32`, a lone `ls32`, a lone group, or nothing.
#[verifier::opaque]
pub open spec fn trailing(s: Seq<u8>, j: nat) -> Parse<Seq<u16>> {
    if j <= 5 {
        groups_exact(s, (6 - j) as nat).and_then(
            |r: Seq<u8>, g: Seq<u16>|
                spec_colon_and_ls32(r).map(|l: Ls32View| g + low_groups(l)),
        )
    } else if j == 6 {
        spec_ls32(s).map(|l: Ls32View| low_groups(l))
    } else if j == 7 {
        spec_h16(s).map(|a: u16| seq![a])
    } else {
        Parse::Done(s, Seq::empty())
    }
}

/// `n` groups of zero.
pub open spec fn zero_groups(n: int) -> Seq<u16> {
    Seq::new(n as nat, |i: int| 0u16)
}

/// One of the nine shapes of an IPv6 address. Shape 0 has no `::`: six
/// groups and an `ls32`. Shape `j` from 1 to 8 has at most `j - 1` groups,
/// then `::`, then exactly `8 - j` groups; zero groups fill what is left of
/// the eight.
pub open spec fn shape(s: Seq<u8>, j: nat) -> Parse<Seq<u16>> {
    if j == 0 {
        trailing(s, 0)
    } else {
        leading(s, j).and_then(
            |r: Seq<u8>, lead: Seq<u16>|
                keyword(r, seq![0x3au8, 0x3au8]).and_then(
                    |r2: Seq<u8>, colons: Seq<u8>|
                        trailing(r2, j).map(
                            |trail: Seq<u16>|
                                lead + zero_groups(8 - lead.len() - trail.len()) + trail,
                        ),
                ),
        )
    }
}

/// The first of the shapes from `j` on that is no plain mismatch; `Alt`
/// where all of them are.
pub open spec fn shapes_from(s: Seq<u8>, j: nat) -> Parse<Seq<u16>>
    decreases 9 - j,
{
    if j > 8 {
        Parse::Error(s, ErrorKind::Alt)
    } else {
        shape(s, j).or(shapes_from(s, j + 1))
    }
}

/// `IPv6address`, as its eight groups: the nine shapes in order, the first
/// that is no plain mismatch decides.
pub open spec fn spec_ipv6address(s: Seq<u8>) -> Parse<Seq<u16>> {
    shapes_from(s, 0)
}

/// Once a chain of groups has failed, asking for more groups fails alike.
pub proof fn lemma_groups_exact_fails(s: Seq<u8>, i: nat, k: nat)
    requires
        1 <= i <= k,
        !(groups_exact(s, i) is Done),
    ensures
        groups_exact(s, k) == groups_exact(s, i),
    decreases k,
{
    if k > i {
        lemma_groups_exact_fails(s, i, (k - 1) as nat);
    }
}

/// Once a greedy chain has failed, a larger limit fails alike.
pub proof fn lemma_groups_greedy_fails(s: Seq<u8>, i: nat, k: nat)
    requires
        1 <= i <= k,
        !(groups_greedy(s, i) is Done),
    ensures
        groups_greedy(s, k) == groups_greedy(s, i),
    decreases k,
{
    if k > i {
        lemma_groups_greedy_fails(s, i, (k - 1) as nat);
    }
}

/// A greedy chain that has met a plain mismatch stays as it is under a
/// larger limit.
pub proof fn lemma_groups_greedy_stops(s: Seq<u8>, i: nat, k: nat)
    requires
        1 <= i <= k,
        groups_greedy(s, i) is Done,
        spec_colon_and_h16(groups_greedy(s, i)->Done_0) is Error,
    ensures
        groups_greedy(s, k) == groups_greedy(s, i),
    decreases k,
{
    if k > i {
        lemma_groups_greedy_stops(s, i, (k - 1) as nat);
    }
}

/// Reads exactly `k` groups into the front of an array of eight.
fn exact_groups<'a>(input: &'a [u8], k: usize) -> (r: IResult<'a, [u16; 8]>)
    requires
        1 <= k <= 8,
    ensures
        match groups_exact(input@, k as nat) {
            Parse::Done(rest, g) => r matches Ok((i, o)) && i@ == rest && o@.take(k as int) == g
                && g.len() == k,
            failure => fails_as(r, failure),
        },
{
    let ghost s = input@;
    let mut groups = [0u16; 8];
    let (mut rest, first) = match h16(input) {
        Ok(found) => found,
        Err(e) => {
            proof {
                lemma_groups_exact_fails(s, 1, k as nat);
            }
            return Err(e);
        },
    };
    groups[0] = first;
    let mut n: usize = 1;
    assert(groups@.take(1) =~= seq![first]);
    while n < k
        invariant
            s == input@,
            1 <= n <= k <= 8,
            groups_exact(s, n as nat) matches Parse::Done(r, g) && r == rest@ && g
                == groups@.take(n as int),
        decreases k - n,
    {
        let ghost before = groups@.take(n as int);
        match colon_and_h16(rest) {
            Ok((after, a)) => {
                groups[n] = a;
                rest = after;
                n += 1;
                assert(groups@.take(n as int) =~= before.push(a));
            },
            Err(e) => {
                proof {
                    lemma_groups_exact_fails(s, (n + 1) as nat, k as nat);
                }
                return Err(e);
            },
        }
    }
    Ok((rest, groups))
}

/// Reads a group and up to `k - 1` further `":" h16` into the front of an
/// array of zeros, and says how many groups it read.
fn greedy_groups<'a>(input: &'a [u8], k: usize) -> (r: IResult<'a, ([u16; 8], usize)>)
    requires
        1 <= k <= 8,
    ensures
        match groups_greedy(input@, k as nat) {
            Parse::Done(rest, g) => r matches Ok((i, o)) && i@ == rest && o.0@.take(o.1 as int)
                == g && g.len() == o.1 && 1 <= o.1 <= k && forall|x: int|
                o.1 <= x < 8 ==> o.0@[x] == 0,
            failure => fails_as(r, failure),
        },
{
    let ghost s = input@;
    let mut groups = [0u16; 8];
    let (mut rest, first) = match h16(input) {
        Ok(found) => found,
        Err(e) => {
            proof {
                lemma_groups_greedy_fails(s, 1, k as nat);
            }
            return Err(e);
        },
    };
    groups[0] = first;
    let mut n: usize = 1;
    assert(groups@.take(1) =~= seq![first]);
    while n < k
        invariant
            s == input@,
            1 <= n <= k <= 8,
            groups_greedy(s, n as nat) matches Parse::Done(r, g) && r == rest@ && g
                == groups@.take(n as int),
            forall|x: int| n <= x < 8 ==> groups@[x] == 0,
        decreases k - n,
    {
        let ghost before = groups@.take(n as int);
        match colon_and_h16(rest) {
            Ok((after, a)) => {
                groups[n] = a;
                rest = after;
                n += 1;
                assert(groups@.take(n as int) =~= before.push(a));
            },
            Err(Failure::Error(_, _)) => {
                proof {
                    lemma_groups_greedy_stops(s, n as nat, k as nat);
                }
                return Ok((rest, (groups, n)));
            },
            Err(e) => {
                proof {
                    lemma_groups_greedy_fails(s, (n + 1) as nat, k as nat);
                }
                return Err(e);
            },
        }
    }
    Ok((rest, (groups, n)))
}

/// Reads the groups before the `::` of shape `j`.
fn leading_groups<'a>(input: &'a [u8], j: usize) -> (r: IResult<'a, ([u16; 8], usize)>)
    requires
        1 <= j <= 8,
    ensures
        match leading(input@, j as nat) {
            Parse::Done(rest, g) => r matches Ok((i, o)) && i@ == rest && o.0@.take(o.1 as int)
                == g && g.len() == o.1 && o.1 < j && forall|x: int|
                o.1 <= x < 8 ==> o.0@[x] == 0,
            failure => fails_as(r, failure),
        },
{
    reveal(leading);
    if j <= 1 {
        let groups = [0u16; 8];
        assert(groups@.take(0) =~= Seq::<u16>::empty());
        return Ok((input, (groups, 0)));
    }
    match greedy_groups(input, j - 1) {
        Ok(found) => Ok(found),
        Err(Failure::Error(_, _)) => {
            let groups = [0u16; 8];
            assert(groups@.take(0) =~= Seq::<u16>::empty());
            Ok((input, (groups, 0)))
        },
        Err(e) => Err(e),
    }
}

/// Reads `6 - j` groups and an `ls32` into the front of an array.
fn groups_and_low<'a>(input: &'a [u8], j: usize) -> (r: IResult<'a, [u16; 8]>)
    requires
        j <= 5,
    ensures
        match trailing(input@, j as nat) {
            Parse::Done(rest, g) => r matches Ok((i, o)) && i@ == rest && o@.take(8 - j) == g
                && g.len() == 8 - j,
            failure => fails_as(r, failure),
        },
{
    reveal(trailing);
    let (rest, found) = exact_groups(input, 6 - j)?;
    let (rest, low) = colon_and_ls32(rest)?;
    let ghost before = found@.take(6 - j);
    let mut groups = found;
    let (a, b) = low.segments();
    groups[6 - j] = a;
    groups[7 - j] = b;
    assert(groups@.take(8 - j) =~= before + low_groups(low@));
    Ok((rest, groups))
}

/// Reads an `ls32` into the front of an array.
fn lone_low<'a>(input: &'a [u8]) -> (r: IResult<'a, [u16; 8]>)
    ensures
        match trailing(input@, 6) {
            Parse::Done(rest, g) => r matches Ok((i, o)) && i@ == rest && o@.take(2) == g
                && g.len() == 2,
            failure => fails_as(r, failure),
        },
{
    reveal(trailing);
    let (rest, low) = ls32(input)?;
    let mut groups = [0u16; 8];
    let (a, b) = low.segments();
    groups[0] = a;
    groups[1] = b;
    assert(groups@.take(2) =~= low_groups(low@));
    Ok((rest, groups))
}

/// Reads one group into the front of an array.
fn lone_group<'a>(input: &'a [u8]) -> (r: IResult<'a, [u16; 8]>)
    ensures
        match trailing(input@, 7) {
            Parse::Done(rest, g) => r matches Ok((i, o)) && i@ == rest && o@.take(1) == g
                && g.len() == 1,
            failure => fails_as(r, failure),
        },
{
    reveal(trailing);
    let (rest, a) = h16(input)?;
    let mut groups = [0u16; 8];
    groups[0] = a;
    assert(groups@.take(1) =~= seq![a]);
    Ok((rest, groups))
}

/// Reads the `8 - j` groups after the `::` of shape `j` into the front of an
/// array; with `j` zero, all eight groups of the shape without `::`.
fn trailing_groups<'a>(input: &'a [u8], j: usize) -> (r: IResult<'a, [u16; 8]>)
    requires
        j <= 8,
    ensures
        match trailing(input@, j as nat) {
            Parse::Done(rest, g) => r matches Ok((i, o)) && i@ == rest && o@.take(8 - j) == g
                && g.len() == 8 - j,
            failure => fails_as(r, failure),
        },
{
    reveal(trailing);
    if j <= 5 {
        groups_and_low(input, j)
    } else if j == 6 {
        lone_low(input)
    } else if j == 7 {
        lone_group(input)
    } else {
        let groups = [0u16; 8];
        assert(groups@.take(0) =~= Seq::<u16>::empty());
        Ok((input, groups))
    }
}

/// Reads an address of shape `j`.
fn shaped<'a>(input: &'a [u8], j: usize) -> (r: IResult<'a, [u16; 8]>)
    requires
        j <= 8,
    ensures
        yields(r, shape(input@, j as nat)),
{
    if j == 0 {
        let (rest, groups) = trailing_groups(input, 0)?;
        assert(groups@.take(8) =~= groups@);
        return Ok((rest, groups));
    }
    let (rest, (lead, m)) = leading_groups(input, j)?;
    let colons = [0x3au8, 0x3au8];
    assert(colons@ =~= seq![0x3au8, 0x3au8]);
    let (rest, _) = tag(rest, &colons)?;
    let (rest, trail) = trailing_groups(rest, j)?;
    let mut groups = lead;
    let mut i: usize = 0;
    while i < 8 - j
        invariant
            1 <= j <= 8,
            i <= 8 - j,
            m < j,
            forall|x: int| 0 <= x < m ==> groups@[x] == lead@[x],
            forall|x: int| m <= x < j ==> groups@[x] == 0,
            forall|x: int| j <= x < j + i ==> groups@[x] == trail@[x - j],
        decreases 8 - j - i,
    {
        groups[j + i] = trail[i];
        i += 1;
    }
    assert(groups@ =~= lead@.take(m as int) + zero_groups(8 - m - (8 - j)) + trail@.take(8 - j));
    Ok((rest, groups))
}

/// An IPv6 address, as its eight groups.
pub fn ipv6address<'a>(input: &'a [u8]) -> (r: IResult<'a, [u16; 8]>)
    ensures
        yields(r, spec_ipv6address(input@)),
{
    let mut j: usize = 0;
    while j <= 8
        invariant
            j <= 9,
            shapes_from(input@, 0) == shapes_from(input@, j as nat),
        decreases 9 - j,
    {
        match shaped(input, j) {
            Err(Failure::Error(_, _)) => {
                j += 1;
            },
            other => {
                return other;
            },
        }
    }
    Err(Failure::Error(input, ErrorKind::Alt))
}

/// `IPv6reference = "[" IPv6address "]"`.
pub open spec fn spec_ipv6reference(s: Seq<u8>) -> Parse<Seq<u16>> {
    the_char(s, 0x5b).and_then(
        |r: Seq<u8>, open: u8|
            spec_ipv6address(r).and_then(
                |r2: Seq<u8>, groups: Seq<u16>| the_char(r2, 0x5d).map(|close: u8| groups),
            ),
    )
}

/// An IPv6 address between square brackets.
pub fn ipv6reference<'a>(input: &'a [u8]) -> (r: IResult<'a, [u16; 8]>)
    ensures
        yields(r, spec_ipv6reference(input@)),
{
    let (rest, _) = character(input, 0x5b)?;
    let (rest, groups) = ipv6address(rest)?;
    let (rest, _) = character(rest, 0x5d)?;
    Ok((rest, groups))
}

/// A number and the character behind it stay within the input together.
proof fn lemma_octet_and_dot(s: Seq<u8>, whole: Seq<u8>)
    requires
        is_tail(s, whole),
    ensures
        spec_dec_u8(s).within(whole),
        spec_dec_u8(s) matches Parse::Done(r, _) ==> the_char(r, 0x2e).within(whole),
{
    lemma_digits_within(s);
    lemma_within_tail(spec_dec_u8(s), s, whole);
    if let Parse::Done(r, _) = spec_dec_u8(s) {
        lemma_bytes_within(r, |i: u8| true, 0x2e);
        lemma_within_tail(the_char(r, 0x2e), r, whole);
    }
}

/// A dotted quad stays within its input.
pub proof fn lemma_ipv4address_within(s: Seq<u8>)
    ensures
        spec_ipv4address(s).within(s),
{
    lemma_skip_is_tail(s, 0);
    lemma_octet_and_dot(s, s);
    if let Parse::Done(r1, _) = spec_dec_u8(s) {
        if let Parse::Done(r2, _) = the_char(r1, 0x2e) {
            lemma_octet_and_dot(r2, s);
            if let Parse::Done(r3, _) = spec_dec_u8(r2) {
                if let Parse::Done(r4, _) = the_char(r3, 0x2e) {
                    lemma_octet_and_dot(r4, s);
                    if let Parse::Done(r5, _) = spec_dec_u8(r4) {
                        if let Parse::Done(r6, _) = the_char(r5, 0x2e) {
                            lemma_octet_and_dot(r6, s);
                        }
                    }
                }
            }
        }
    }
}

/// A colon and a group stay within their input.
pub proof fn lemma_colon_and_h16_within(s: Seq<u8>)
    ensures
        spec_colon_and_h16(s).within(s),
        spec_h16(s).within(s),
{
    lemma_digits_within(s);
    lemma_bytes_within(s, |i: u8| true, 0x3a);
    if let Parse::Done(r, _) = the_char(s, 0x3a) {
        lemma_digits_within(r);
        lemma_within_tail(spec_h16(r), r, s);
    }
}

/// The low 32 bits stay within their input.
pub proof fn lemma_ls32_within(s: Seq<u8>)
    ensures
        spec_ls32(s).within(s),
        spec_colon_and_ls32(s).within(s),
{
    lemma_ls32_alone_within(s);
    lemma_bytes_within(s, |i: u8| true, 0x3a);
    if let Parse::Done(r, _) = the_char(s, 0x3a) {
        lemma_ls32_alone_within(r);
        lemma_within_tail(spec_ls32(r), r, s);
    }
}

proof fn lemma_ls32_alone_within(s: Seq<u8>)
    ensures
        spec_ls32(s).within(s),
{
    lemma_skip_is_tail(s, 0);
    lemma_digits_within(s);
    if let Parse::Done(r, _) = spec_h16(s) {
        lemma_colon_and_h16_within(r);
        lemma_within_tail(spec_colon_and_h16(r), r, s);
    }
    lemma_ipv4address_within(s);
}

/// A chain of groups stays within its input.
pub proof fn lemma_groups_within(s: Seq<u8>, k: nat)
    ensures
        groups_exact(s, k).within(s),
        groups_greedy(s, k).within(s),
    decreases k,
{
    lemma_skip_is_tail(s, 0);
    lemma_digits_within(s);
    if k > 1 {
        lemma_groups_within(s, (k - 1) as nat);
        if let Parse::Done(r, _) = groups_exact(s, (k - 1) as nat) {
            lemma_colon_and_h16_within(r);
            lemma_within_tail(spec_colon_and_h16(r), r, s);
        }
        if let Parse::Done(r, _) = groups_greedy(s, (k - 1) as nat) {
            lemma_colon_and_h16_within(r);
            lemma_within_tail(spec_colon_and_h16(r), r, s);
        }
    }
}

/// The groups before and after a `::` stay within their input.
pub proof fn lemma_leading_trailing_within(s: Seq<u8>, j: nat)
    ensures
        leading(s, j).within(s),
        trailing(s, j).within(s),
{
    reveal(leading);
    reveal(trailing);
    lemma_skip_is_tail(s, 0);
    lemma_digits_within(s);
    lemma_ls32_within(s);
    if j > 1 {
        lemma_groups_within(s, (j - 1) as nat);
    }
    if j <= 5 {
        lemma_groups_within(s, (6 - j) as nat);
        if let Parse::Done(r, _) = groups_exact(s, (6 - j) as nat) {
            lemma_ls32_within(r);
            lemma_within_tail(spec_colon_and_ls32(r), r, s);
        }
    }
}

/// Each shape of an IPv6 address stays within its input.
pub proof fn lemma_shape_within(s: Seq<u8>, j: nat)
    ensures
        shape(s, j).within(s),
{
    lemma_leading_trailing_within(s, j);
    if j > 0 {
        if let Parse::Done(r, _) = leading(s, j) {
            let colons = seq![0x3au8, 0x3au8];
            lemma_keyword_within(r, colons);
            lemma_within_tail(keyword(r, colons), r, s);
            if let Parse::Done(r2, _) = keyword(r, colons) {
                lemma_leading_trailing_within(r2, j);
                lemma_within_tail(trailing(r2, j), r2, s);
            }
        }
    }
}

/// The first shape that decides stays within its input.
pub proof fn lemma_shapes_from_within(s: Seq<u8>, j: nat)
    ensures
        shapes_from(s, j).within(s),
    decreases 9 - j,
{
    lemma_skip_is_tail(s, 0);
    if j <= 8 {
        lemma_shape_within(s, j);
        lemma_shapes_from_within(s, j + 1);
    }
}

/// An IPv6 address, with or without its brackets, stays within its input.
pub proof fn lemma_ipv6_within(s: Seq<u8>)
    ensures
        spec_ipv6address(s).within(s),
        spec_ipv6reference(s).within(s),
{
    lemma_shapes_from_within(s, 0);
    lemma_bytes_within(s, |i: u8| true, 0x5b);
    if let Parse::Done(r, _) = the_char(s, 0x5b) {
        lemma_shapes_from_within(r, 0);
        lemma_within_tail(spec_ipv6address(r), r, s);
        if let Parse::Done(r2, _) = spec_ipv6address(r) {
            lemma_bytes_within(r2, |i: u8| true, 0x5d);
            lemma_within_tail(the_char(r2, 0x5d), r2, s);
        }
    }
}

} // verus!
