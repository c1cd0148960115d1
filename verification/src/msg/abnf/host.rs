//! Host names, hosts and ports.

use vstd::prelude::*;
use crate::msg::abnf::{is_alpha, is_alphanum, is_digit};
use crate::msg::abnf::ch::{alpha, alphanum};
use crate::msg::abnf::digit::{
    accumulate, bounded_run, decimal, digit_run, lemma_bounded_run_within, lemma_digits_within,
    spec_single,
};
use crate::msg::abnf::ip::{
    ipv4address, ipv6reference, lemma_ipv4address_within, lemma_ipv6_within, spec_ipv4address,
    spec_ipv6reference,
};
use crate::msg::abnf::outcome::{
    byte, byte_where, class_run, count_while, is_tail, leading_count, lemma_bytes_within,
    lemma_class_run_bounds, lemma_class_run_reaches, lemma_leading_count_bounds,
    lemma_leading_count_reaches, lemma_leading_count_stops, lemma_skip_is_tail, lemma_tail_of_tail,
    lemma_within_tail, the_byte, yields, ErrorKind, Failure, IResult, Parse,
};

verus! {

/// A byte that may stand inside a label: `alphanum / "-"`.
pub open spec fn spec_is_label_byte(i: u8) -> bool {
    is_alphanum(i) || i == '-' as u8
}

#[verifier::when_used_as_spec(spec_is_label_byte)]
pub fn is_label_byte(i: u8) -> (r: bool)
    ensures
        r == spec_is_label_byte(i),
{
    is_alphanum(i) || i == '-' as u8
}

/// The first `n` bytes of `s` cut back to their last alphanumeric byte.
pub open spec fn trimmed(s: Seq<u8>, n: nat) -> nat
    decreases n,
{
    if n == 0 {
        0
    } else if is_alphanum(s[n - 1]) {
        n
    } else {
        trimmed(s, (n - 1) as nat)
    }
}

/// The length of the label at the start of `s`: the longest run of label
/// bytes, without the dashes at its end.
pub open spec fn label_len(s: Seq<u8>) -> nat {
    trimmed(s, class_run(s, s.len(), |i: u8| is_label_byte(i)))
}

/// A label whose first byte is in the class `first`: it never ends in a
/// dash, and the dashes that follow it are left in the remainder.
pub open spec fn label(s: Seq<u8>, first: spec_fn(u8) -> bool) -> Parse<Seq<u8>> {
    byte_where(s, first).and_then(
        |r: Seq<u8>, b: u8|
            Parse::Done(s.skip(label_len(s) as int), s.take(label_len(s) as int)),
    )
}

/// `domainlabel = alphanum / alphanum *( alphanum / "-" ) alphanum`.
pub open spec fn spec_domainlabel(s: Seq<u8>) -> Parse<Seq<u8>> {
    label(s, |i: u8| is_alphanum(i))
}

/// `toplabel = ALPHA / ALPHA *( alphanum / "-" ) alphanum`.
pub open spec fn spec_toplabel(s: Seq<u8>) -> Parse<Seq<u8>> {
    label(s, |i: u8| is_alpha(i))
}

/// A label that starts with an alphanumeric byte is not empty, lies within
/// the input, and what is cut back from its run is dashes only.
pub proof fn lemma_label_len(s: Seq<u8>)
    requires
        s.len() > 0,
        is_alphanum(s[0]),
    ensures
        1 <= label_len(s) <= s.len(),
{
    let class = |i: u8| is_label_byte(i);
    lemma_class_run_bounds(s, s.len(), class);
    assert(class_run(s, 0, class) == 0);
    lemma_class_run_reaches(s, 0, s.len(), class);
    lemma_trimmed(s, class_run(s, s.len(), class));
}

/// Cutting back leaves at least the first byte where that is alphanumeric.
pub proof fn lemma_trimmed(s: Seq<u8>, n: nat)
    requires
        s.len() > 0,
        is_alphanum(s[0]),
        1 <= n,
    ensures
        1 <= trimmed(s, n) <= n,
    decreases n,
{
    if n > 1 && !is_alphanum(s[n - 1]) {
        lemma_trimmed(s, (n - 1) as nat);
    }
}

/// Splits the label off an input that starts with an alphanumeric byte.
fn split_label<'a>(input: &'a [u8]) -> (r: (&'a [u8], &'a [u8]))
    requires
        input@.len() > 0,
        is_alphanum(input@[0]),
    ensures
        r.0@ == input@.skip(label_len(input@) as int),
        r.1@ == input@.take(label_len(input@) as int),
{
    let ghost s = input@;
    let run = count_while(input, is_label_byte, Ghost(|i: u8| is_label_byte(i)));
    proof {
        lemma_label_len(s);
    }
    let mut n = run;
    while n > 1 && !is_alphanum(input[n - 1])
        invariant
            s == input@,
            1 <= n <= run <= s.len(),
            is_alphanum(s[0]),
            trimmed(s, run as nat) == trimmed(s, n as nat),
        decreases n,
    {
        n -= 1;
    }
    (&input[n..input.len()], &input[0..n])
}

/// A label of a domain name.
pub fn domainlabel<'a>(input: &'a [u8]) -> (r: IResult<'a, &'a [u8]>)
    ensures
        yields(r, spec_domainlabel(input@)),
{
    let _ = alphanum(input)?;
    let (rest, found) = split_label(input);
    Ok((rest, found))
}

/// The last label of a domain name, which starts with a letter.
pub fn toplabel<'a>(input: &'a [u8]) -> (r: IResult<'a, &'a [u8]>)
    ensures
        yields(r, spec_toplabel(input@)),
{
    let _ = alpha(input)?;
    let (rest, found) = split_label(input);
    Ok((rest, found))
}

/// The byte `.`.
pub fn dot<'a>(input: &'a [u8]) -> (r: IResult<'a, u8>)
    ensures
        yields(r, the_byte(input@, '.' as u8)),
{
    byte(input, '.' as u8)
}

/// The byte `:`.
pub fn colon<'a>(input: &'a [u8]) -> (r: IResult<'a, u8>)
    ensures
        yields(r, the_byte(input@, ':' as u8)),
{
    byte(input, ':' as u8)
}

/// `domainlabel "."`: one unit of the chain that a host name starts with.
pub open spec fn spec_label_and_dot(s: Seq<u8>) -> Parse<Seq<u8>> {
    spec_domainlabel(s).and_then(
        |r: Seq<u8>, l: Seq<u8>| the_byte(r, '.' as u8).map(|d: u8| l),
    )
}

/// A label and the dot after it.
fn label_and_dot<'a>(input: &'a [u8]) -> (r: IResult<'a, &'a [u8]>)
    ensures
        yields(r, spec_label_and_dot(input@)),
{
    let (rest, found) = domainlabel(input)?;
    let (rest, _) = dot(rest)?;
    Ok((rest, found))
}

/// What is left of `s` after `i` units `domainlabel "."`.
pub open spec fn after_units(s: Seq<u8>, i: nat) -> Seq<u8>
    decreases i,
{
    if i == 0 {
        s
    } else {
        let before = after_units(s, (i - 1) as nat);
        match spec_label_and_dot(before) {
            Parse::Done(r, _) => r,
            _ => before,
        }
    }
}

/// Whether a unit `domainlabel "."` stands after the first `i` units of `s`.
pub open spec fn unit_at(s: Seq<u8>, i: nat) -> bool {
    spec_label_and_dot(after_units(s, i)) is Done
}

/// The label of the unit after the first `i` units of `s`.
pub open spec fn unit_label(s: Seq<u8>, i: nat) -> Seq<u8> {
    spec_label_and_dot(after_units(s, i))->Done_1
}

/// The number of units `domainlabel "."` that `s` starts with.
pub open spec fn chain_len(s: Seq<u8>) -> nat {
    leading_count(s.len(), |i: nat| unit_at(s, i))
}

/// The last of the first `n` units of `s` whose label starts with a letter.
pub open spec fn last_alpha(s: Seq<u8>, n: nat) -> Option<nat>
    decreases n,
{
    if n == 0 {
        None
    } else if is_alpha(unit_label(s, (n - 1) as nat)[0]) {
        Some((n - 1) as nat)
    } else {
        last_alpha(s, (n - 1) as nat)
    }
}

/// `hostname = *( domainlabel "." ) toplabel [ "." ]` with room for `cap`
/// labels, as the top label and the number of domain labels before it.
///
/// The name starts with a chain of units `domainlabel "."`, as long as it
/// can be, and each label of the chain takes one place of the output. Where
/// a top label follows the chain, it is the top label and the whole chain is
/// the domain labels. Where none does, the last label of the chain that
/// starts with a letter is the top label, its dot belongs to the name, the
/// labels before it are the domain labels, and what follows its dot is left.
/// A chain without such a label is no host name.
pub open spec fn spec_hostname(s: Seq<u8>, cap: nat) -> Parse<(Seq<u8>, usize)> {
    let k = chain_len(s);
    if k > cap {
        Parse::CapacityExhausted(cap as usize)
    } else {
        match spec_toplabel(after_units(s, k)) {
            Parse::Done(r, l) => Parse::Done(r, (l, k as usize)),
            _ => match last_alpha(s, k) {
                Some(i) => Parse::Done(after_units(s, i + 1), (unit_label(s, i), i as usize)),
                None => Parse::Error(s, ErrorKind::Verify),
            },
        }
    }
}

/// The number of labels that a host name parser writes: those of the chain,
/// as far as there is room.
pub open spec fn labels_written(s: Seq<u8>, cap: nat) -> nat {
    if chain_len(s) <= cap {
        chain_len(s)
    } else {
        cap
    }
}

/// The output array after a host name parser ran on `s`: the labels of the
/// chain in the order of the input, then what was there before.
pub open spec fn labels_stored(before: Seq<&[u8]>, after: Seq<&[u8]>, s: Seq<u8>) -> bool {
    &&& after.len() == before.len()
    &&& forall|i: int|
        0 <= i < labels_written(s, before.len()) ==> (#[trigger] after[i])@ == unit_label(
            s,
            i as nat,
        )
    &&& forall|i: int|
        labels_written(s, before.len()) <= i < before.len() ==> #[trigger] after[i] == before[i]
}

/// The labels that the places of an output array hold.
pub open spec fn label_views(a: Seq<&[u8]>) -> Seq<Seq<u8>> {
    Seq::new(a.len(), |i: int| a[i]@)
}

/// The labels in an output array that held `before`, after a host name
/// parser ran on `s`.
pub open spec fn labels_after(before: Seq<Seq<u8>>, s: Seq<u8>) -> Seq<Seq<u8>> {
    Seq::new(
        before.len(),
        |i: int|
            if i < labels_written(s, before.len()) {
                unit_label(s, i as nat)
            } else {
                before[i]
            },
    )
}

/// What [`labels_stored`] says of the array, said of its labels.
pub proof fn lemma_labels_stored(before: Seq<&[u8]>, after: Seq<&[u8]>, s: Seq<u8>)
    requires
        labels_stored(before, after, s),
    ensures
        label_views(after) == labels_after(label_views(before), s),
{
    assert(label_views(after) =~= labels_after(label_views(before), s));
}

/// A unit takes at least two bytes, and its label at least one.
pub proof fn lemma_unit(s: Seq<u8>)
    requires
        spec_label_and_dot(s) is Done,
    ensures
        spec_label_and_dot(s)->Done_0.len() + 2 <= s.len(),
        spec_label_and_dot(s)->Done_1.len() >= 1,
        spec_label_and_dot(s)->Done_1[0] == s[0],
{
    lemma_label_len(s);
}

/// A host name: its top label and the number of domain labels before it,
/// which are written to `domains` in the order of the input.
pub fn hostname<'a, 'b>(input: &'a [u8], domains: &'b mut [&'a [u8]]) -> (r: IResult<
    'a,
    (&'a [u8], usize),
>)
    ensures
        yields(r, spec_hostname(input@, old(domains)@.len())),
        labels_stored(old(domains)@, final(domains)@, input@),
{
    let ghost s = input@;
    let ghost before = domains@;
    let ghost ok = |i: nat| unit_at(s, i);
    let mut rest = input;
    let mut n: usize = 0;
    let mut has_top = false;
    let mut top_index: usize = 0;
    let mut top_label = input;
    let mut top_rest = input;
    loop
        invariant
            s == input@,
            ok == (|i: nat| unit_at(s, i)),
            before == old(domains)@,
            domains@.len() == before.len(),
            n <= domains@.len(),
            rest@ == after_units(s, n as nat),
            leading_count(n as nat, ok) == n,
            2 * n + rest@.len() <= s.len(),
            forall|i: int| 0 <= i < n ==> (#[trigger] domains@[i])@ == unit_label(s, i as nat),
            forall|i: int| n <= i < before.len() ==> #[trigger] domains@[i] == before[i],
            has_top <==> last_alpha(s, n as nat) is Some,
            has_top ==> last_alpha(s, n as nat) == Some(top_index as nat) && top_label@
                == unit_label(s, top_index as nat) && top_rest@ == after_units(
                s,
                (top_index + 1) as nat,
            ),
        decreases rest@.len(),
    {
        match label_and_dot(rest) {
            Ok((after, found)) => {
                proof {
                    lemma_unit(rest@);
                }
                if n >= domains.len() {
                    proof {
                        lemma_leading_count_reaches(n as nat, s.len(), ok);
                    }
                    return Err(Failure::CapacityExhausted(n));
                }
                domains[n] = found;
                if is_alpha(found[0]) {
                    has_top = true;
                    top_index = n;
                    top_label = found;
                    top_rest = after;
                }
                n += 1;
                rest = after;
            },
            Err(_) => {
                proof {
                    lemma_leading_count_stops(n as nat, s.len(), ok);
                }
                return match toplabel(rest) {
                    Ok((after, found)) => Ok((after, (found, n))),
                    Err(_) => if has_top {
                        Ok((top_rest, (top_label, top_index)))
                    } else {
                        Err(Failure::Error(input, ErrorKind::Verify))
                    },
                };
            },
        }
    }
}

/// A label stays within its input.
pub proof fn lemma_label_within(s: Seq<u8>, first: spec_fn(u8) -> bool)
    requires
        forall|i: u8| first(i) ==> is_alphanum(i),
    ensures
        label(s, first).within(s),
        spec_label_and_dot(s).within(s),
{
    lemma_skip_is_tail(s, 0);
    if s.len() > 0 && is_alphanum(s[0]) {
        lemma_label_len(s);
        lemma_skip_is_tail(s, label_len(s) as int);
        let r = s.skip(label_len(s) as int);
        lemma_bytes_within(r, |i: u8| true, '.' as u8);
        lemma_within_tail(the_byte(r, '.' as u8), r, s);
    }
}

/// What is left after some units is a tail of the input.
pub proof fn lemma_after_units_is_tail(s: Seq<u8>, i: nat)
    ensures
        is_tail(after_units(s, i), s),
    decreases i,
{
    lemma_skip_is_tail(s, 0);
    if i > 0 {
        lemma_after_units_is_tail(s, (i - 1) as nat);
        let before = after_units(s, (i - 1) as nat);
        lemma_label_within(before, |i: u8| is_alphanum(i));
        lemma_within_tail(spec_label_and_dot(before), before, s);
    }
}

/// A host name stays within its input.
pub proof fn lemma_hostname_within(s: Seq<u8>, cap: nat)
    ensures
        spec_hostname(s, cap).within(s),
{
    let k = chain_len(s);
    lemma_skip_is_tail(s, 0);
    lemma_after_units_is_tail(s, k);
    let r = after_units(s, k);
    lemma_label_within(r, |i: u8| is_alpha(i));
    lemma_within_tail(spec_toplabel(r), r, s);
    if let Some(i) = last_alpha(s, k) {
        lemma_after_units_is_tail(s, i + 1);
    }
}

/// The last of the first `n` units whose label starts with a letter is one
/// of them, and its label does start with a letter.
pub proof fn lemma_last_alpha(s: Seq<u8>, n: nat)
    ensures
        last_alpha(s, n) matches Some(i) ==> i < n && is_alpha(unit_label(s, i)[0]),
    decreases n,
{
    if n > 0 {
        lemma_last_alpha(s, (n - 1) as nat);
    }
}

/// The top label of a host name is not empty and starts with a letter, and
/// the domain labels before it are no more than the chain has and than there
/// is room for.
pub proof fn lemma_top_label(s: Seq<u8>, cap: nat)
    requires
        spec_hostname(s, cap) is Done,
    ensures
        ({
            let found = spec_hostname(s, cap)->Done_1;
            found.0.len() >= 1 && is_alpha(found.0[0]) && found.1 <= chain_len(s) <= cap
        }),
{
    let k = chain_len(s);
    let ok = |i: nat| unit_at(s, i);
    lemma_leading_count_bounds(s.len(), ok);
    let r = after_units(s, k);
    if spec_toplabel(r) is Done {
        lemma_label_len(r);
    } else {
        lemma_last_alpha(s, k);
        let i = last_alpha(s, k)->Some_0;
        assert(ok(i));
        lemma_unit(after_units(s, i));
    }
}

/// A host name of which no label is stored. The outcome is that of the
/// rule with room for every label.
pub fn hostname_span<'a>(input: &'a [u8]) -> (r: IResult<'a, (&'a [u8], usize)>)
    ensures
        yields(r, spec_hostname(input@, input@.len())),
{
    let ghost s = input@;
    let ghost ok = |i: nat| unit_at(s, i);
    let mut rest = input;
    let mut n: usize = 0;
    let mut has_top = false;
    let mut top_index: usize = 0;
    let mut top_label = input;
    let mut top_rest = input;
    proof {
        lemma_leading_count_bounds(s.len(), ok);
    }
    loop
        invariant
            s == input@,
            ok == (|i: nat| unit_at(s, i)),
            chain_len(s) <= s.len(),
            s.len() == input.len(),
            rest@ == after_units(s, n as nat),
            leading_count(n as nat, ok) == n,
            2 * n + rest@.len() <= s.len(),
            has_top <==> last_alpha(s, n as nat) is Some,
            has_top ==> last_alpha(s, n as nat) == Some(top_index as nat) && top_label@
                == unit_label(s, top_index as nat) && top_rest@ == after_units(
                s,
                (top_index + 1) as nat,
            ),
        decreases rest@.len(),
    {
        match label_and_dot(rest) {
            Ok((after, found)) => {
                proof {
                    lemma_unit(rest@);
                }
                if is_alpha(found[0]) {
                    has_top = true;
                    top_index = n;
                    top_label = found;
                    top_rest = after;
                }
                n += 1;
                rest = after;
            },
            Err(_) => {
                proof {
                    lemma_leading_count_stops(n as nat, s.len(), ok);
                }
                return match toplabel(rest) {
                    Ok((after, found)) => Ok((after, (found, n))),
                    Err(_) => if has_top {
                        Ok((top_rest, (top_label, top_index)))
                    } else {
                        Err(Failure::Error(input, ErrorKind::Verify))
                    },
                };
            },
        }
    }
}

/// A host, as it was written.
#[derive(Debug, PartialEq, Eq, Clone, Copy)]
pub enum Host<'a> {
    /// A host name: its top label and the number of its domain labels.
    Hostname(&'a [u8], usize),
    /// An IPv4 address, by its four octets.
    Ipv4([u8; 4]),
    /// An IPv6 address, by its eight groups.
    Ipv6([u16; 8]),
}

/// The value of a [`Host`].
pub enum HostView {
    Hostname(Seq<u8>, usize),
    Ipv4(Seq<u8>),
    Ipv6(Seq<u16>),
}

impl<'a> View for Host<'a> {
    type V = HostView;

    open spec fn view(&self) -> HostView {
        match *self {
            Host::Hostname(top, count) => HostView::Hostname(top@, count),
            Host::Ipv4(octets) => HostView::Ipv4(octets@),
            Host::Ipv6(groups) => HostView::Ipv6(groups@),
        }
    }
}

/// `host = hostname / IPv4address / IPv6reference`: the three are tried in
/// this order. The next one is tried only where the one before turned the
/// input down at its very start; a literal address that is malformed further
/// in fails as it is. `Alt` where none of the three starts here.
pub open spec fn spec_host(s: Seq<u8>, cap: nat) -> Parse<HostView> {
    spec_hostname(s, cap).map(|v: (Seq<u8>, usize)| HostView::Hostname(v.0, v.1)).or_at(
        s,
        spec_ipv4address(s).map(|o: Seq<u8>| HostView::Ipv4(o)),
    ).or_at(s, spec_ipv6reference(s).map(|g: Seq<u16>| HostView::Ipv6(g))).or_at(
        s,
        Parse::Error(s, ErrorKind::Alt),
    )
}

/// A host. The labels that the host name rule reads are written to
/// `domains`, whichever alternative decides.
pub fn host<'a, 'b>(input: &'a [u8], domains: &'b mut [&'a [u8]]) -> (r: IResult<'a, Host<'a>>)
    ensures
        yields(r, spec_host(input@, old(domains)@.len())),
        labels_stored(old(domains)@, final(domains)@, input@),
{
    match hostname(input, domains) {
        Ok((rest, found)) => {
            return Ok((rest, Host::Hostname(found.0, found.1)));
        },
        Err(Failure::Error(at, kind)) => {
            if at.len() != input.len() {
                return Err(Failure::Error(at, kind));
            }
        },
        Err(e) => {
            return Err(e);
        },
    }
    match ipv4address(input) {
        Ok((rest, octets)) => {
            return Ok((rest, Host::Ipv4(octets)));
        },
        Err(Failure::Error(at, kind)) => {
            if at.len() != input.len() {
                return Err(Failure::Error(at, kind));
            }
        },
        Err(e) => {
            return Err(e);
        },
    }
    match ipv6reference(input) {
        Ok((rest, groups)) => Ok((rest, Host::Ipv6(groups))),
        Err(Failure::Error(at, kind)) => {
            if at.len() != input.len() {
                Err(Failure::Error(at, kind))
            } else {
                Err(Failure::Error(input, ErrorKind::Alt))
            }
        },
        Err(e) => Err(e),
    }
}

/// `port`: one to five digits that make a number from 1 to 65535. The rule
/// does not wait for input: an empty input is `Complete`. A digit that
/// would take the value past 65535 is turned down where it stands, and a
/// value of zero is turned down behind its digits.
pub open spec fn spec_port(s: Seq<u8>) -> Parse<u16> {
    if s.len() == 0 {
        Parse::Error(s, ErrorKind::Complete)
    } else {
        spec_single(s).and_then(
            |r: Seq<u8>, first: u8|
                {
                    let n = bounded_run(s, 5, 65535);
                    if n < digit_run(s, 5) || decimal(s, n) == 0 {
                        Parse::Error(s.skip(n as int), ErrorKind::Digit)
                    } else {
                        Parse::Done(s.skip(n as int), decimal(s, n) as u16)
                    }
                },
        )
    }
}

/// A port number.
pub fn port<'a>(input: &'a [u8]) -> (r: IResult<'a, u16>)
    ensures
        yields(r, spec_port(input@)),
{
    if input.len() == 0 {
        return Err(Failure::Error(input, ErrorKind::Complete));
    }
    if !is_digit(input[0]) {
        return Err(Failure::Error(input, ErrorKind::Verify));
    }
    let (n, overflow, value) = accumulate(input, 5, 65535);
    let rest = &input[n..input.len()];
    if overflow || value == 0 {
        Err(Failure::Error(rest, ErrorKind::Digit))
    } else {
        Ok((rest, value as u16))
    }
}

/// `hostport = host [ ":" port ]`: a colon commits to a port.
pub open spec fn spec_hostport(s: Seq<u8>, cap: nat) -> Parse<(HostView, Option<u16>)> {
    spec_host(s, cap).and_then(
        |r: Seq<u8>, h: HostView|
            match the_byte(r, ':' as u8) {
                Parse::Done(r2, _) => spec_port(r2).map(|p: u16| (h, Some(p))),
                _ => Parse::Done(r, (h, None)),
            },
    )
}

/// A host and the port after it, if there is one.
pub fn hostport<'a, 'b>(input: &'a [u8], domains: &'b mut [&'a [u8]]) -> (r: IResult<
    'a,
    (Host<'a>, Option<u16>),
>)
    ensures
        yields(r, spec_hostport(input@, old(domains)@.len())),
        labels_stored(old(domains)@, final(domains)@, input@),
{
    let (rest, h) = host(input, domains)?;
    match colon(rest) {
        Ok((after, _)) => {
            let (after, p) = port(after)?;
            Ok((after, (h, Some(p))))
        },
        Err(_) => Ok((rest, (h, None))),
    }
}

/// A host, a port and a host with its port stay within their input.
pub proof fn lemma_host_within(s: Seq<u8>, cap: nat)
    ensures
        spec_host(s, cap).within(s),
        spec_port(s).within(s),
        spec_hostport(s, cap).within(s),
{
    lemma_skip_is_tail(s, 0);
    lemma_hostname_within(s, cap);
    lemma_ipv4address_within(s);
    lemma_ipv6_within(s);
    lemma_port_within(s);
    if let Parse::Done(r, _) = spec_host(s, cap) {
        lemma_bytes_within(r, |i: u8| true, ':' as u8);
        if let Parse::Done(r2, _) = the_byte(r, ':' as u8) {
            lemma_tail_of_tail(r2, r, s);
            lemma_port_within(r2);
            lemma_within_tail(spec_port(r2), r2, s);
        }
    }
}

proof fn lemma_port_within(s: Seq<u8>)
    ensures
        spec_port(s).within(s),
{
    lemma_skip_is_tail(s, 0);
    lemma_digits_within(s);
    lemma_bounded_run_within(s, 5, 65535);
}

} // verus!
