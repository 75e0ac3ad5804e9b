//! Version tags: what a launcher's name says of the version it wants, how
//! tags are read off names, which tags a tag accepts, and how they order.

use std::cmp::Ordering;

use vstd::arithmetic::div_mod::{lemma_add_mod_noop, lemma_mul_mod_noop_left};
use vstd::prelude::*;
use vstd::string::{StringExecFns, StringSliceAdditionalSpecFns};

verus! {

/// An ASCII decimal digit.
pub open spec fn is_digit(c: u8) -> bool {
    48 <= c <= 57
}

/// A byte that `is_digit`.
pub open spec fn digit_byte() -> spec_fn(u8) -> bool {
    |c: u8| is_digit(c)
}

/// A digit or a dot: a byte that a version number is written with.
pub open spec fn version_byte() -> spec_fn(u8) -> bool {
    |c: u8| is_digit(c) || c == 46
}

/// Any byte but `x`.
pub open spec fn other_than(x: u8) -> spec_fn(u8) -> bool {
    |c: u8| c != x
}

/// The byte `x` alone.
pub open spec fn equal_to(x: u8) -> spec_fn(u8) -> bool {
    |c: u8| c == x
}

/// The length of the longest suffix of `b` whose bytes all satisfy `keep`.
pub open spec fn trailing_run(b: Seq<u8>, keep: spec_fn(u8) -> bool) -> nat
    decreases b.len(),
{
    if b.len() > 0 && keep(b.last()) {
        trailing_run(b.drop_last(), keep) + 1
    } else {
        0
    }
}

/// The length of the longest prefix of `b` whose bytes all satisfy `keep`.
pub open spec fn leading_run(b: Seq<u8>, keep: spec_fn(u8) -> bool) -> nat
    decreases b.len(),
{
    if b.len() > 0 && keep(b[0]) {
        leading_run(b.drop_first(), keep) + 1
    } else {
        0
    }
}

/// The number that the decimal digits `ds` spell, most significant first.
pub open spec fn digits_value(ds: Seq<u8>) -> nat
    decreases ds.len(),
{
    if ds.len() == 0 {
        0
    } else {
        digits_value(ds.drop_last()) * 10 + (ds.last() - 48) as nat
    }
}

/// The field that a group of digits gives: none for an empty group, else
/// its value modulo 2^16, as a field holds 16 bits.
pub open spec fn group_value(ds: Seq<u8>) -> Option<u16> {
    if ds.len() == 0 {
        None
    } else {
        Some((digits_value(ds) % 65536) as u16)
    }
}

/// Whether `b` ends in a dash and one or more digits: an architecture marker.
pub open spec fn has_arch(b: Seq<u8>) -> bool {
    let k = trailing_run(b, digit_byte());
    0 < k < b.len() && b[b.len() - k - 1] == 45
}

/// The digits of the architecture marker at the end of `b`.
pub open spec fn arch_digits(b: Seq<u8>) -> Seq<u8> {
    b.subrange(b.len() - trailing_run(b, digit_byte()), b.len() as int)
}

/// `b` without its architecture marker, if it has one.
pub open spec fn before_arch(b: Seq<u8>) -> Seq<u8> {
    if has_arch(b) {
        b.subrange(0, b.len() - trailing_run(b, digit_byte()) - 1)
    } else {
        b
    }
}

/// The version number at the end of `before_arch(b)`: digits and dots.
pub open spec fn version_text(b: Seq<u8>) -> Seq<u8> {
    let p = before_arch(b);
    p.subrange(p.len() - trailing_run(p, version_byte()), p.len() as int)
}

/// The first dot-separated group of `v`.
pub open spec fn first_group(v: Seq<u8>) -> Seq<u8> {
    v.subrange(0, leading_run(v, other_than(46)) as int)
}

/// What follows the first dot of `v` (empty where `v` has no dot).
pub open spec fn after_first_dot(v: Seq<u8>) -> Seq<u8> {
    let d = leading_run(v, other_than(46));
    if d < v.len() {
        v.subrange(d + 1int, v.len() as int)
    } else {
        Seq::empty()
    }
}

/// Whether a dash just before the version number is taken with it: it is
/// where the version has a dot or an architecture marker follows it.
pub open spec fn eats_separator(b: Seq<u8>) -> bool {
    let p = before_arch(b);
    let n = trailing_run(p, version_byte());
    &&& has_arch(b) || version_text(b).contains(46)
    &&& n < p.len()
    &&& p[p.len() - n - 1] == 45
}

/// The version number `v` from its first group that holds a digit on: `v`
/// without its leading dots (empty where `v` has no digit).
pub open spec fn from_first_number(v: Seq<u8>) -> Seq<u8> {
    v.subrange(leading_run(v, equal_to(46)) as int, v.len() as int)
}

/// The tag that the end of `b` spells.
///
/// The major is the outermost group of digits: the first group of the
/// version number that holds a digit, or, where the version holds none, the
/// architecture marker, which then stands for the major. The minor is the
/// group after the major's, where there is one.
pub open spec fn tag_of(b: Seq<u8>) -> Tag {
    let w = from_first_number(version_text(b));
    if w.len() > 0 {
        Tag {
            major: group_value(first_group(w)),
            minor: if w.contains(46) {
                group_value(first_group(after_first_dot(w)))
            } else {
                None
            },
            arch: if has_arch(b) {
                group_value(arch_digits(b))
            } else {
                None
            },
        }
    } else if has_arch(b) {
        Tag { major: group_value(arch_digits(b)), minor: None, arch: None }
    } else {
        Tag { major: None, minor: None, arch: None }
    }
}

/// How many bytes at the end of `b` the tag takes.
pub open spec fn tag_len(b: Seq<u8>) -> nat {
    let p = before_arch(b);
    (b.len() - p.len()) as nat + trailing_run(p, version_byte()) + if eats_separator(b) {
        1nat
    } else {
        0nat
    }
}

/// A run of bytes that satisfy `keep` and ends at the end of `b`, with a
/// byte that does not (or nothing) before it, is the trailing run.
proof fn lemma_trailing_run(b: Seq<u8>, keep: spec_fn(u8) -> bool, i: int)
    requires
        0 <= i <= b.len(),
        forall|j: int| i <= j < b.len() ==> keep(b[j]),
        i == 0 || !keep(b[i - 1]),
    ensures
        trailing_run(b, keep) == b.len() - i,
    decreases b.len(),
{
    if i < b.len() {
        lemma_trailing_run(b.drop_last(), keep, i);
    }
}

/// A run of bytes that satisfy `keep` from the start of `b`, with a byte
/// that does not (or nothing) after it, is the leading run.
pub(crate) proof fn lemma_leading_run(b: Seq<u8>, keep: spec_fn(u8) -> bool, i: int)
    requires
        0 <= i <= b.len(),
        forall|j: int| 0 <= j < i ==> keep(b[j]),
        i == b.len() || !keep(b[i]),
    ensures
        leading_run(b, keep) == i,
    decreases b.len(),
{
    if i > 0 {
        lemma_leading_run(b.drop_first(), keep, i - 1);
    }
}

/// The decimal digit `d` as a character.
pub open spec fn digit_char(d: nat) -> char {
    ((d + 48) as u8) as char
}

/// `n` written in decimal, without leading zeros.
pub open spec fn decimal(n: nat) -> Seq<char>
    decreases n,
{
    if n < 10 {
        seq![digit_char(n)]
    } else {
        decimal(n / 10).push(digit_char(n % 10))
    }
}

/// How a tag is written: `major[.minor][-arch]`, or nothing for a tag
/// without a major.
pub open spec fn tag_text(t: Tag) -> Seq<char> {
    match t.major {
        None => Seq::empty(),
        Some(major) => {
            let version = match t.minor {
                Some(minor) => decimal(major as nat) + seq!['.'] + decimal(minor as nat),
                None => decimal(major as nat),
            };
            match t.arch {
                Some(arch) => version + seq!['-'] + decimal(arch as nat),
                None => version,
            }
        },
    }
}

/// The decimal digit `d` as text.
fn digit_str(d: u16) -> (r: &'static str)
    requires
        d < 10,
    ensures
        r@ == seq![digit_char(d as nat)],
{
    proof {
        reveal_strlit("0");
        reveal_strlit("1");
        reveal_strlit("2");
        reveal_strlit("3");
        reveal_strlit("4");
        reveal_strlit("5");
        reveal_strlit("6");
        reveal_strlit("7");
        reveal_strlit("8");
        reveal_strlit("9");
    }
    match d {
        0 => "0",
        1 => "1",
        2 => "2",
        3 => "3",
        4 => "4",
        5 => "5",
        6 => "6",
        7 => "7",
        8 => "8",
        _ => "9",
    }
}

/// Appends `n` in decimal to `s`.
fn push_decimal(s: &mut String, n: u16)
    ensures
        final(s)@ == old(s)@ + decimal(n as nat),
    decreases n,
{
    if n >= 10 {
        push_decimal(s, n / 10);
    }
    s.append(digit_str(n % 10));
    assert(decimal(n as nat) =~= if n < 10 {
        seq![digit_char(n as nat)]
    } else {
        decimal((n / 10) as nat) + seq![digit_char((n % 10) as nat)]
    });
}

/// A tag was asked of a text that is not a tag from its first byte on.
#[derive(Clone, Copy, Debug, PartialEq, Eq, Structural)]
pub struct TagFormatError {
    /// How many bytes at the end of the text the tag took.
    pub parsed: usize,
    /// The length of the text in bytes.
    pub length: usize,
}

/// Where the run of digits (and of dots, with `dots`) that ends at `end`
/// starts.
fn run_start(b: &[u8], end: usize, dots: bool) -> (i: usize)
    requires
        end <= b@.len(),
    ensures
        i <= end,
        forall|t: int| i <= t < end ==> is_digit(b@[t]) || (dots && b@[t] == 46),
        !dots ==> i == end - trailing_run(b@.subrange(0, end as int), digit_byte()),
        dots ==> i == end - trailing_run(b@.subrange(0, end as int), version_byte()),
{
    let mut i: usize = end;
    while i > 0 && (48 <= b[i - 1] && b[i - 1] <= 57 || dots && b[i - 1] == 46)
        invariant
            i <= end <= b@.len(),
            forall|t: int| i <= t < end ==> is_digit(b@[t]) || (dots && b@[t] == 46),
        decreases i,
    {
        i = i - 1;
    }
    let ghost p = b@.subrange(0, end as int);
    proof {
        if dots {
            lemma_trailing_run(p, version_byte(), i as int);
        } else {
            lemma_trailing_run(p, digit_byte(), i as int);
        }
    }
    i
}

/// Where the first `x` at or after `start` stands before `end`, or `end`.
pub(crate) fn find_byte(b: &[u8], start: usize, end: usize, x: u8) -> (d: usize)
    requires
        start <= end <= b@.len(),
    ensures
        start <= d <= end,
        d == start + leading_run(b@.subrange(start as int, end as int), other_than(x)),
        forall|t: int| start <= t < d ==> b@[t] != x,
        d < end ==> b@[d as int] == x,
{
    let mut d: usize = start;
    while d < end && b[d] != x
        invariant
            start <= d <= end <= b@.len(),
            forall|t: int| start <= t < d ==> b@[t] != x,
        decreases end - d,
    {
        d = d + 1;
    }
    proof {
        lemma_leading_run(b@.subrange(start as int, end as int), other_than(x), d - start);
    }
    d
}

/// Reads the version number `b[j..end]`: the value of its first group that
/// holds a digit (none where no group does), the value of the group after
/// it, and whether the number has a dot.
fn read_version(b: &[u8], j: usize, end: usize) -> (r: (Option<u16>, Option<u16>, bool))
    requires
        j <= end <= b@.len(),
        forall|t: int| j <= t < end ==> is_digit(b@[t]) || b@[t] == 46,
    ensures
        ({
            let v = b@.subrange(j as int, end as int);
            let w = from_first_number(v);
            &&& r.2 == v.contains(46)
            &&& w.len() > 0 ==> r.0 == group_value(first_group(w)) && r.0.is_some()
            &&& w.len() > 0 ==> r.1 == if w.contains(46) {
                group_value(first_group(after_first_dot(w)))
            } else {
                None
            }
            &&& w.len() == 0 ==> r.0.is_none()
        }),
{
    let ghost s = b@;
    let ghost v = s.subrange(j as int, end as int);
    let k = skip_byte(b, j, end, 46);
    let ghost w = s.subrange(k as int, end as int);
    assert(w =~= from_first_number(v));
    if k == end {
        proof {
            if v.len() > 0 {
                assert(v[0] == 46);
            }
        }
        return (None, None, k > j);
    }
    let d = find_byte(b, k, end, 46);
    proof {
        if k > j {
            assert(v[0] == 46);
        } else if d < end {
            assert(v[d - j] == 46);
        } else {
            assert forall|t: int| 0 <= t < v.len() implies v[t] != 46 by {}
        }
        assert(first_group(w) =~= s.subrange(k as int, d as int));
        if d < end {
            assert(w[d - k] == 46);
        } else {
            assert forall|t: int| 0 <= t < w.len() implies w[t] != 46 by {}
        }
    }
    let major = group_in(b, k, d);
    let minor = if d < end {
        let e = find_byte(b, d + 1, end, 46);
        assert(after_first_dot(w) =~= s.subrange(d + 1, end as int));
        assert(first_group(after_first_dot(w)) =~= s.subrange(d + 1, e as int));
        group_in(b, d + 1, e)
    } else {
        None
    };
    (major, minor, k > j || d < end)
}

/// Where the run of `x` that starts at `start` ends, before `end`.
fn skip_byte(b: &[u8], start: usize, end: usize, x: u8) -> (k: usize)
    requires
        start <= end <= b@.len(),
    ensures
        start <= k <= end,
        k == start + leading_run(b@.subrange(start as int, end as int), equal_to(x)),
        forall|t: int| start <= t < k ==> b@[t] == x,
        k < end ==> b@[k as int] != x,
{
    let mut k: usize = start;
    while k < end && b[k] == x
        invariant
            start <= k <= end <= b@.len(),
            forall|t: int| start <= t < k ==> b@[t] == x,
        decreases end - k,
    {
        k = k + 1;
    }
    proof {
        lemma_leading_run(b@.subrange(start as int, end as int), equal_to(x), k - start);
    }
    k
}

/// The value of the digits `b[start..end]`, or none where there are none.
fn group_in(b: &[u8], start: usize, end: usize) -> (r: Option<u16>)
    requires
        start <= end <= b@.len(),
        forall|j: int| start <= j < end ==> is_digit(b@[j]),
    ensures
        r == group_value(b@.subrange(start as int, end as int)),
{
    if start == end {
        return None;
    }
    let mut acc: u32 = 0;
    let mut p: usize = start;
    while p < end
        invariant
            start <= p <= end <= b@.len(),
            forall|j: int| start <= j < end ==> is_digit(b@[j]),
            acc < 65536,
            acc == digits_value(b@.subrange(start as int, p as int)) % 65536,
        decreases end - p,
    {
        let d = b[p] - 48;
        proof {
            let prev = b@.subrange(start as int, p as int);
            let next = b@.subrange(start as int, p + 1);
            assert(next.drop_last() =~= prev);
            let v = digits_value(prev) as int;
            lemma_mul_mod_noop_left(v, 10, 65536);
            lemma_add_mod_noop(v * 10, d as int, 65536);
            lemma_add_mod_noop((v % 65536) * 10, d as int, 65536);
        }
        acc = (acc * 10 + d as u32) % 65536;
        p = p + 1;
    }
    Some(acc as u16)
}

/// How two optional fields compare: `None` comes before every `Some`.
pub open spec fn option_order(a: Option<u16>, b: Option<u16>) -> Ordering {
    match (a, b) {
        (Some(x), Some(y)) => if x < y {
            Ordering::Less
        } else if x > y {
            Ordering::Greater
        } else {
            Ordering::Equal
        },
        (Some(_), None) => Ordering::Greater,
        (None, Some(_)) => Ordering::Less,
        (None, None) => Ordering::Equal,
    }
}

/// Compares two optional fields.
fn cmp_opt(lh: Option<u16>, rh: Option<u16>) -> (r: Ordering)
    ensures
        r == option_order(lh, rh),
{
    match lh {
        Some(lv) => match rh {
            Some(rv) => if lv < rv {
                Ordering::Less
            } else if lv > rv {
                Ordering::Greater
            } else {
                Ordering::Equal
            },
            None => Ordering::Greater,
        },
        None => match rh {
            Some(_) => Ordering::Less,
            None => Ordering::Equal,
        },
    }
}

/// A version tag: major, minor and architecture, each optional.
///
/// `None` in a field means that the field is not specified.
#[derive(Clone, Copy, Debug, PartialEq, Eq, Structural, Ord, Hash)]
pub struct Tag {
    pub major: Option<u16>,
    pub minor: Option<u16>,
    pub arch: Option<u16>,
}

impl Tag {
    /// Whether `self` accepts `other`: `other` agrees on every field that
    /// `self` specifies.
    pub open spec fn accepts(&self, other: &Tag) -> bool {
        &&& (self.arch.is_none() || self.arch == other.arch)
        &&& (self.major.is_none() || (self.major == other.major && (self.minor.is_none()
            || self.minor == other.minor)))
    }

    /// Reads a tag off the end of `name`.
    ///
    /// Returns the tag and the number of bytes at the end of `name` that it
    /// takes: an architecture marker (a dash and digits, `-32`), before it
    /// a version number of digits and dots, and the dash that separates the
    /// version from the command name where the version has a dot or a
    /// marker follows it (`easy_install-3.6`). Any other byte ends the tag.
    ///
    /// The major is the version's first group that holds a digit, and the
    /// minor the group after it. Where the version holds no digit, the
    /// marker's number is the major (`pip-3`). So the tag has a major
    /// whenever it has a minor, and whenever the bytes it takes hold a
    /// digit.
    pub fn parse(name: &str) -> (r: (Tag, usize))
        ensures
            r.0 == tag_of(name.spec_bytes()),
            r.1 == tag_len(name.spec_bytes()),
            r.0.minor.is_some() ==> r.0.major.is_some(),
            (exists|j: int|
                name.spec_bytes().len() - r.1 <= j < name.spec_bytes().len() && is_digit(
                    #[trigger] name.spec_bytes()[j],
                )) ==> r.0.major.is_some(),
    {
        Tag::scan(name.as_bytes())
    }

    /// Reads a tag off the end of the bytes `b`, as `parse` does.
    #[verifier::rlimit(30)]
    pub fn scan(b: &[u8]) -> (r: (Tag, usize))
        ensures
            r.0 == tag_of(b@),
            r.1 == tag_len(b@),
            r.0.minor.is_some() ==> r.0.major.is_some(),
            (exists|j: int| b@.len() - r.1 <= j < b@.len() && is_digit(#[trigger] b@[j]))
                ==> r.0.major.is_some(),
    {
        proof {
            lemma_tag_major(b@);
        }
        let n = b.len();
        let ghost s = b@;
        assert(s.subrange(0, n as int) =~= s);

        let i = run_start(b, n, false);
        let marked = i < n && i > 0 && b[i - 1] == 45;
        let arch = if marked {
            group_in(b, i, n)
        } else {
            None
        };
        let end = if marked {
            i - 1
        } else {
            n
        };
        let ghost p = s.subrange(0, end as int);
        assert(p =~= before_arch(s));
        assert(arch_digits(s) =~= s.subrange(i as int, n as int));

        let j = run_start(b, end, true);
        assert(p.subrange(0, end as int) =~= p);
        let ghost v = s.subrange(j as int, end as int);
        assert(v =~= version_text(s));

        let (number, minor, has_dot) = read_version(b, j, end);
        let (major, minor, arch) = match number {
            Some(major) => (Some(major), minor, arch),
            None => (arch, None, None),
        };
        let eats = (marked || has_dot) && j > 0 && b[j - 1] == 45;
        let tag = Tag { major, minor, arch };
        if eats {
            (tag, n - j + 1)
        } else {
            (tag, n - j)
        }
    }

    /// Reads a tag that takes all of `name`.
    pub fn parse_strict(name: &str) -> (r: Result<Tag, TagFormatError>)
        ensures
            tag_len(name.spec_bytes()) == name.spec_bytes().len() ==> r == Ok::<
                Tag,
                TagFormatError,
            >(tag_of(name.spec_bytes())),
            tag_len(name.spec_bytes()) != name.spec_bytes().len() ==> r == Err::<
                Tag,
                TagFormatError,
            >(
                TagFormatError {
                    parsed: tag_len(name.spec_bytes()) as usize,
                    length: name.spec_bytes().len() as usize,
                },
            ),
            (match r {
                Ok(t) => (t.minor.is_some() ==> t.major.is_some()) && ((exists|j: int|
                    0 <= j < name.spec_bytes().len() && is_digit(#[trigger] name.spec_bytes()[j]))
                    ==> t.major.is_some()),
                Err(_) => true,
            }),
    {
        let (tag, len) = Tag::parse(name);
        let length = name.as_bytes().len();
        if len == length {
            Ok(tag)
        } else {
            Err(TagFormatError { parsed: len, length })
        }
    }

    /// The tag that all of `name` spells.
    pub fn from_name(name: &str) -> (r: Tag)
        requires
            tag_len(name.spec_bytes()) == name.spec_bytes().len(),
        ensures
            r == tag_of(name.spec_bytes()),
            r.minor.is_some() ==> r.major.is_some(),
            (exists|j: int|
                0 <= j < name.spec_bytes().len() && is_digit(#[trigger] name.spec_bytes()[j]))
                ==> r.major.is_some(),
    {
        Tag::parse(name).0
    }

    /// Whether the tag leaves the version open.
    pub fn is_wildcard(&self) -> (r: bool)
        ensures
            r == self.major.is_none(),
    {
        self.major.is_none()
    }

    /// The tag as text: `3.5-32`, `3.5`, `3`, or empty for a tag without a
    /// major.
    pub fn to_string(&self) -> (r: String)
        ensures
            r@ == tag_text(*self),
    {
        let mut s = String::new();
        if let Some(major) = self.major {
            push_decimal(&mut s, major);
            if let Some(minor) = self.minor {
                s.append(".");
                push_decimal(&mut s, minor);
            }
            if let Some(arch) = self.arch {
                s.append("-");
                push_decimal(&mut s, arch);
            }
        }
        proof {
            reveal_strlit(".");
            reveal_strlit("-");
        }
        s
    }

    /// Whether `other` is as specific as `self` or more, and agrees with it
    /// on every field that `self` specifies.
    pub fn contains(&self, other: &Tag) -> (r: bool)
        ensures
            r == self.accepts(other),
    {
        if self.arch.is_some() && self.arch != other.arch {
            return false;
        }
        if self.major.is_none() {
            return true;
        }
        if self.major != other.major {
            return false;
        }
        self.minor.is_none() || self.minor == other.minor
    }

    /// Tags order by major, then minor, then architecture.
    pub open spec fn order(&self, other: &Tag) -> Ordering {
        let by_major = option_order(self.major, other.major);
        let by_minor = option_order(self.minor, other.minor);
        if by_major != Ordering::Equal {
            by_major
        } else if by_minor != Ordering::Equal {
            by_minor
        } else {
            option_order(self.arch, other.arch)
        }
    }

    /// Compares by major, then minor, then architecture; an unspecified
    /// field comes before every specified one.
    pub fn compare(&self, other: &Tag) -> (r: Ordering)
        ensures
            r == self.order(other),
    {
        match cmp_opt(self.major, other.major) {
            Ordering::Equal => {},
            major_order => {
                return major_order;
            },
        }
        match cmp_opt(self.minor, other.minor) {
            Ordering::Equal => {},
            minor_order => {
                return minor_order;
            },
        }
        cmp_opt(self.arch, other.arch)
    }
}

impl PartialOrd for Tag {
    fn partial_cmp(&self, other: &Tag) -> (r: Option<Ordering>) {
        Some(self.compare(other))
    }
}

impl vstd::std_specs::cmp::PartialOrdSpecImpl for Tag {
    open spec fn obeys_partial_cmp_spec() -> bool {
        true
    }

    open spec fn partial_cmp_spec(&self, other: &Tag) -> Option<Ordering> {
        Some(self.order(other))
    }
}

/// Whether `ds` is a decimal number that fits a tag's field: one or more
/// digits whose value is below 2^16.
pub open spec fn is_field_number(ds: Seq<u8>) -> bool {
    &&& ds.len() > 0
    &&& forall|i: int| 0 <= i < ds.len() ==> is_digit(#[trigger] ds[i])
    &&& digits_value(ds) < 65536
}

/// A name followed by `-MAJOR.MINOR-ARCH` gives back the three numbers, and
/// the tag takes the three numbers with the dot and both dashes.
pub proof fn lemma_parse_full_suffix(name: Seq<u8>, major: Seq<u8>, minor: Seq<u8>, arch: Seq<u8>)
    requires
        is_field_number(major),
        is_field_number(minor),
        is_field_number(arch),
    ensures
        ({
            let b = name + seq![45u8] + major + seq![46u8] + minor + seq![45u8] + arch;
            &&& tag_of(b) == Tag {
                major: Some(digits_value(major) as u16),
                minor: Some(digits_value(minor) as u16),
                arch: Some(digits_value(arch) as u16),
            }
            &&& tag_len(b) == major.len() + minor.len() + arch.len() + 3
        }),
{
    let p = name + seq![45u8] + major + seq![46u8] + minor;
    let b = p + seq![45u8] + arch;
    let v = major + seq![46u8] + minor;
    assert(name + seq![45u8] + major + seq![46u8] + minor + seq![45u8] + arch =~= b);
    let a0 = p.len() + 1int;
    assert forall|j: int| a0 <= j < b.len() implies (digit_byte())(b[j]) by {
        assert(b[j] == arch[j - a0]);
    }
    lemma_trailing_run(b, digit_byte(), a0);
    assert(has_arch(b));
    assert(before_arch(b) =~= p);
    assert(arch_digits(b) =~= arch);
    let v0 = name.len() + 1int;
    assert forall|j: int| v0 <= j < p.len() implies (version_byte())(p[j]) by {
        if j < v0 + major.len() {
            assert(p[j] == major[j - v0]);
        } else if j > v0 + major.len() {
            assert(p[j] == minor[j - v0 - major.len() - 1]);
        }
    }
    lemma_trailing_run(p, version_byte(), v0);
    assert(version_text(b) =~= v);
    lemma_leading_run(v, equal_to(46), 0);
    assert(from_first_number(v) =~= v);
    assert forall|j: int| 0 <= j < major.len() implies (other_than(46))(v[j]) by {
        assert(v[j] == major[j]);
    }
    lemma_leading_run(v, other_than(46), major.len() as int);
    assert(first_group(v) =~= major);
    assert(v[major.len() as int] == 46u8);
    assert(v.contains(46u8));
    assert(after_first_dot(v) =~= minor);
    assert forall|j: int| 0 <= j < minor.len() implies (other_than(46))(minor[j]) by {}
    lemma_leading_run(minor, other_than(46), minor.len() as int);
    assert(first_group(minor) =~= minor);
    assert(eats_separator(b));
}

/// Every tag accepts itself.
pub proof fn lemma_accepts_reflexive(t: Tag)
    ensures
        t.accepts(&t),
{
}

/// Tags are totally ordered: the order of two tags is the converse of
/// their order the other way round, only equal tags compare equal, and the
/// order is transitive.
pub proof fn lemma_order_total(a: Tag, b: Tag, c: Tag)
    ensures
        a.order(&b) == Ordering::Greater <==> b.order(&a) == Ordering::Less,
        a.order(&b) == Ordering::Equal <==> a == b,
        a.order(&b) != Ordering::Greater && b.order(&c) != Ordering::Greater ==> a.order(&c)
            != Ordering::Greater,
        a.order(&b) == Ordering::Less && b.order(&c) == Ordering::Less ==> a.order(&c)
            == Ordering::Less,
{
}

/// The trailing run fits in `b`, and its bytes satisfy `keep`.
proof fn lemma_trailing_run_bytes(b: Seq<u8>, keep: spec_fn(u8) -> bool)
    ensures
        trailing_run(b, keep) <= b.len(),
        forall|j: int| b.len() - trailing_run(b, keep) <= j < b.len() ==> keep(#[trigger] b[j]),
    decreases b.len(),
{
    if b.len() > 0 && keep(b.last()) {
        lemma_trailing_run_bytes(b.drop_last(), keep);
        assert forall|j: int| b.len() - trailing_run(b, keep) <= j < b.len() implies keep(
            #[trigger] b[j],
        ) by {
            if j < b.len() - 1 {
                assert(b.drop_last()[j] == b[j]);
            }
        }
    }
}

/// A tag takes no more than the bytes it is read from, and only digits,
/// dots and dashes among them.
pub proof fn lemma_tag_bytes(b: Seq<u8>)
    ensures
        tag_len(b) <= b.len(),
        forall|j: int|
            b.len() - tag_len(b) <= j < b.len() ==> is_digit(#[trigger] b[j]) || b[j] == 46 || b[j]
                == 45,
{
    lemma_trailing_run_bytes(b, digit_byte());
    let p = before_arch(b);
    lemma_trailing_run_bytes(p, version_byte());
    assert forall|j: int|
        b.len() - tag_len(b) <= j < b.len() implies is_digit(#[trigger] b[j]) || b[j] == 46
        || b[j] == 45 by {
        if j < p.len() {
            assert(b[j] == p[j]);
        }
    }
}

/// The leading run fits in `b`, its bytes satisfy `keep`, and the byte
/// after it does not.
proof fn lemma_leading_run_bytes(b: Seq<u8>, keep: spec_fn(u8) -> bool)
    ensures
        leading_run(b, keep) <= b.len(),
        forall|j: int| 0 <= j < leading_run(b, keep) ==> keep(#[trigger] b[j]),
        leading_run(b, keep) < b.len() ==> !keep(b[leading_run(b, keep) as int]),
    decreases b.len(),
{
    if b.len() > 0 && keep(b[0]) {
        let t = b.drop_first();
        lemma_leading_run_bytes(t, keep);
        assert forall|j: int| 0 <= j < leading_run(b, keep) implies keep(#[trigger] b[j]) by {
            if j > 0 {
                assert(t[j - 1] == b[j]);
            }
        }
        if leading_run(b, keep) < b.len() {
            assert(t[leading_run(t, keep) as int] == b[leading_run(b, keep) as int]);
        }
    }
}

/// A tag read off a name has a major whenever it has a minor, and whenever
/// the bytes it takes hold a digit.
pub proof fn lemma_tag_major(b: Seq<u8>)
    ensures
        tag_of(b).minor.is_some() ==> tag_of(b).major.is_some(),
        (exists|j: int| b.len() - tag_len(b) <= j < b.len() && is_digit(#[trigger] b[j]))
            ==> tag_of(b).major.is_some(),
{
    let p = before_arch(b);
    let n = trailing_run(p, version_byte());
    let v = version_text(b);
    let w = from_first_number(v);
    lemma_trailing_run_bytes(b, digit_byte());
    lemma_trailing_run_bytes(p, version_byte());
    lemma_leading_run_bytes(v, equal_to(46));
    if w.len() > 0 {
        assert(w[0] == v[leading_run(v, equal_to(46)) as int]);
        lemma_leading_run_bytes(w, other_than(46));
        assert(first_group(w).len() > 0);
    }
    if exists|j: int| b.len() - tag_len(b) <= j < b.len() && is_digit(#[trigger] b[j]) {
        let j = choose|j: int| b.len() - tag_len(b) <= j < b.len() && is_digit(#[trigger] b[j]);
        if j >= p.len() {
            assert(has_arch(b));
        } else {
            assert(b[j] == p[j]);
            if j >= p.len() - n {
                let x = j - (p.len() - n);
                assert(v[x] == p[j]);
                assert(w.len() > 0);
            }
        }
    }
}

} // verus!
