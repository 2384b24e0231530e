//! The version tag: an immutable value naming a (possibly partial) Python
//! version and architecture specifier.
//!
//! A tag carries up to three fields, each independently optional: a major
//! version, a minor version (only beside a major one), and an architecture.
//! Tags are totally ordered (absent field first, then ascending), and a tag
//! read as a pattern `contains` a candidate when every present field of the
//! pattern is present and equal in the candidate. Strict parsing and
//! rendering translate between tags and their canonical strings.

use vstd::prelude::*;

use crate::num::digit_prefix_end;
use crate::num::lemma_canonical_num_str;
use crate::num::lemma_digit_prefix_end;
use crate::num::num_str;
use crate::num::num_val;
use crate::num::ok_num;
use crate::num::scan_num;
use crate::num::u32_to_string;
use vstd::string::StrSliceExecFns;
use vstd::string::StringExecFns;

verus! {

/// Processor architecture of an interpreter build.
#[derive(Clone, Copy, Debug, PartialEq, Eq, Structural)]
pub enum Architecture {
    Bits32,
    Bits64,
}

/// A (possibly partial) version/architecture specifier.
///
/// Invariant (see [`Tag::wf`]): a minor version is only ever present beside a
/// major one. Strict parsing and the [`Tag::new`] constructor both maintain
/// it.
#[derive(Clone, Copy, Debug, PartialEq, Eq)]
pub struct Tag {
    pub major: Option<u32>,
    pub minor: Option<u32>,
    pub architecture: Option<Architecture>,
}

/// Order on optional version numbers: an absent field sorts before any
/// present value.
pub open spec fn opt_num_lt(a: Option<u32>, b: Option<u32>) -> bool {
    match (a, b) {
        (Option::None, Option::Some(_)) => true,
        (Option::Some(x), Option::Some(y)) => x < y,
        _ => false,
    }
}

/// Rank of the architecture field in the tag order: absent before 32-bit
/// before 64-bit.
pub open spec fn arch_rank(a: Option<Architecture>) -> int {
    match a {
        Option::None => 0,
        Option::Some(Architecture::Bits32) => 1,
        Option::Some(Architecture::Bits64) => 2,
    }
}

/// The strict total order on tags: by major version, then minor version,
/// then architecture, each with an absent field before any present value.
pub open spec fn tag_lt(a: Tag, b: Tag) -> bool {
    opt_num_lt(a.major, b.major) || (a.major == b.major && (opt_num_lt(a.minor, b.minor) || (
    a.minor == b.minor && arch_rank(a.architecture) < arch_rank(b.architecture))))
}

/// The reflexive closure of [`tag_lt`].
pub open spec fn tag_le(a: Tag, b: Tag) -> bool {
    tag_lt(a, b) || a == b
}

/// The pattern-match relation: every field present in `pat` must be present
/// and equal in `cand`; a field absent in `pat` is a wildcard.
pub open spec fn spec_contains(pat: Tag, cand: Tag) -> bool {
    &&& pat.major is Some ==> cand.major == pat.major
    &&& pat.minor is Some ==> cand.minor == pat.minor
    &&& pat.architecture is Some ==> cand.architecture == pat.architecture
}

impl Tag {
    /// Well-formed: no minor version without a major version.
    pub open spec fn wf(self) -> bool {
        self.minor is Some ==> self.major is Some
    }

    /// Direct construction, for callers that already hold the parts (say,
    /// from command-line input). A minor version demands a major version.
    pub fn new(major: Option<u32>, minor: Option<u32>, architecture: Option<Architecture>) -> (
        t: Tag)
        requires
            minor is Some ==> major is Some,
        ensures
            t == (Tag { major, minor, architecture }),
            t.wf(),
    {
        Tag { major, minor, architecture }
    }

    /// The fully-unspecified pattern, which matches every candidate.
    pub fn unspecified() -> (t: Tag)
        ensures
            t == (Tag { major: None, minor: None, architecture: None }),
            t.wf(),
    {
        Tag { major: None, minor: None, architecture: None }
    }

    /// Whether `self`, read as a pattern, matches the candidate `cand`.
    pub fn contains(&self, cand: &Tag) -> (r: bool)
        ensures
            r == spec_contains(*self, *cand),
    {
        let major_ok: bool = match (self.major, cand.major) {
            (Option::Some(a), Option::Some(b)) => a == b,
            (Option::None, _) => true,
            _ => false,
        };
        let minor_ok: bool = match (self.minor, cand.minor) {
            (Option::Some(a), Option::Some(b)) => a == b,
            (Option::None, _) => true,
            _ => false,
        };
        let arch_ok: bool = match (self.architecture, cand.architecture) {
            (Option::Some(a), Option::Some(b)) => a == b,
            (Option::None, _) => true,
            _ => false,
        };
        major_ok && minor_ok && arch_ok
    }

    /// Strict-order test, the executable face of [`tag_lt`].
    pub fn lt(&self, other: &Tag) -> (r: bool)
        ensures
            r == tag_lt(*self, *other),
    {
        let major_lt: bool = opt_num_lt_exec(self.major, other.major);
        let major_eq: bool = opt_num_eq_exec(self.major, other.major);
        let minor_lt: bool = opt_num_lt_exec(self.minor, other.minor);
        let minor_eq: bool = opt_num_eq_exec(self.minor, other.minor);
        let ra: u32 = arch_rank_exec(self.architecture);
        let rb: u32 = arch_rank_exec(other.architecture);
        major_lt || (major_eq && (minor_lt || (minor_eq && ra < rb)))
    }

    /// Equality test usable from verified code.
    pub fn same(&self, other: &Tag) -> (r: bool)
        ensures
            r == (*self == *other),
    {
        let major_eq: bool = opt_num_eq_exec(self.major, other.major);
        let minor_eq: bool = opt_num_eq_exec(self.minor, other.minor);
        let arch_eq: bool = match (self.architecture, other.architecture) {
            (Option::Some(a), Option::Some(b)) => a == b,
            (Option::None, Option::None) => true,
            _ => false,
        };
        major_eq && minor_eq && arch_eq
    }
}

fn opt_num_lt_exec(a: Option<u32>, b: Option<u32>) -> (r: bool)
    ensures
        r == opt_num_lt(a, b),
{
    match (a, b) {
        (Option::None, Option::Some(_)) => true,
        (Option::Some(x), Option::Some(y)) => x < y,
        _ => false,
    }
}

fn opt_num_eq_exec(a: Option<u32>, b: Option<u32>) -> (r: bool)
    ensures
        r == (a == b),
{
    match (a, b) {
        (Option::None, Option::None) => true,
        (Option::Some(x), Option::Some(y)) => x == y,
        _ => false,
    }
}

fn arch_rank_exec(a: Option<Architecture>) -> (r: u32)
    ensures
        r as int == arch_rank(a),
{
    match a {
        Option::None => 0u32,
        Option::Some(Architecture::Bits32) => 1u32,
        Option::Some(Architecture::Bits64) => 2u32,
    }
}

/// Why a candidate string was rejected by strict parsing; carries the
/// offending input for the caller's diagnostics.
#[derive(Debug, PartialEq, Eq)]
pub struct ParseError {
    pub input: String,
}

/// The architecture a suffix names: exactly `32` or `64`, nothing else.
pub open spec fn spec_arch(s: Seq<char>) -> Option<Architecture> {
    if s == seq!['3', '2'] {
        Some(Architecture::Bits32)
    } else if s == seq!['6', '4'] {
        Some(Architecture::Bits64)
    } else {
        None
    }
}

/// The characters of an architecture suffix.
pub open spec fn arch_str(a: Architecture) -> Seq<char> {
    match a {
        Architecture::Bits32 => seq!['3', '2'],
        Architecture::Bits64 => seq!['6', '4'],
    }
}

/// Strict parsing at the specification level: a major numeral, then
/// optionally `.` and a minor numeral, then optionally `-` and an
/// architecture. Every component that is present must be exactly
/// well-formed; any other string parses to `None`.
pub open spec fn spec_parse(s: Seq<char>) -> Option<Tag> {
    let i = digit_prefix_end(s);
    let maj = s.take(i);
    if !ok_num(maj) {
        None
    } else {
        let major = Some(num_val(maj) as u32);
        if i == s.len() {
            Some(Tag { major, minor: None, architecture: None })
        } else if s[i] == '.' {
            let rest = s.skip(i + 1);
            let j = digit_prefix_end(rest);
            let min = rest.take(j);
            if !ok_num(min) {
                None
            } else {
                let minor = Some(num_val(min) as u32);
                if j == rest.len() {
                    Some(Tag { major, minor, architecture: None })
                } else if rest[j] == '-' {
                    match spec_arch(rest.skip(j + 1)) {
                        Some(a) => Some(Tag { major, minor, architecture: Some(a) }),
                        None => None,
                    }
                } else {
                    None
                }
            }
        } else if s[i] == '-' {
            match spec_arch(s.skip(i + 1)) {
                Some(a) => Some(Tag { major, minor: None, architecture: Some(a) }),
                None => None,
            }
        } else {
            None
        }
    }
}

/// Rendering at the specification level: the canonical string of a tag,
/// used as a store key segment.
pub open spec fn spec_render(t: Tag) -> Seq<char> {
    (match t.major {
        Some(m) => num_str(m as nat),
        None => Seq::<char>::empty(),
    }) + (match t.minor {
        Some(n) => seq!['.'] + num_str(n as nat),
        None => Seq::<char>::empty(),
    }) + (match t.architecture {
        Some(a) => seq!['-'] + arch_str(a),
        None => Seq::<char>::empty(),
    })
}

/// Scan an architecture suffix that starts at `start`: the whole remainder
/// of the string must be exactly `32` or `64`.
fn scan_arch(s: &str, start: usize) -> (r: Option<Architecture>)
    requires
        start as int <= s@.len(),
    ensures
        r == spec_arch(s@.skip(start as int)),
{
    let len: usize = s.unicode_len();
    let ghost suffix = s@.skip(start as int);
    if len - start != 2 {
        proof {
            assert(suffix.len() != 2);
        }
        None
    } else {
        let c0 = s.get_char(start);
        let c1 = s.get_char(start + 1);
        proof {
            assert(suffix.len() == 2);
            assert(suffix[0] == s@[start as int]);
            assert(suffix[1] == s@[start as int + 1]);
        }
        if c0 == '3' && c1 == '2' {
            proof {
                assert(suffix =~= seq!['3', '2']);
            }
            Some(Architecture::Bits32)
        } else if c0 == '6' && c1 == '4' {
            proof {
                assert(suffix =~= seq!['6', '4']);
            }
            Some(Architecture::Bits64)
        } else {
            proof {
                assert(suffix != seq!['3', '2'] && suffix != seq!['6', '4']) by {
                    if suffix == seq!['3', '2'] {
                        assert(suffix[0] == '3' && suffix[1] == '2');
                    }
                    if suffix == seq!['6', '4'] {
                        assert(suffix[0] == '6' && suffix[1] == '4');
                    }
                }
            }
            None
        }
    }
}

impl Tag {
    /// Strict parsing of a candidate name. Exactly the canonical tag strings
    /// are accepted; anything else is rejected with an error naming the
    /// offending input. Together with [`Tag::render`] this gives the
    /// round-trip law: what parsing accepts, the parsed tag renders back,
    /// character for character (see [`lemma_parse_render_round_trip`]).
    pub fn parse_strict(name: &str) -> (r: Result<Tag, ParseError>)
        ensures
            match r {
                Ok(t) => spec_parse(name@) == Some(t) && t.wf() && t.major is Some,
                Err(e) => spec_parse(name@) is None && e.input@ == name@,
            },
    {
        let len: usize = name.unicode_len();
        proof {
            assert(name@.skip(0) =~= name@);
            lemma_digit_prefix_end(name@);
        }
        let (majo, i) = scan_num(name, 0);
        match majo {
            Option::None => Err(ParseError { input: String::from_str(name) }),
            Option::Some(m) => {
                let major = Some(m);
                if i == len {
                    proof {
                        assert(name@.take(digit_prefix_end(name@)) =~= name@.skip(0).take(
                            digit_prefix_end(name@.skip(0))));
                    }
                    Ok(Tag { major, minor: None, architecture: None })
                } else {
                    proof {
                        assert(name@.take(digit_prefix_end(name@)) =~= name@.skip(0).take(
                            digit_prefix_end(name@.skip(0))));
                    }
                    let c = name.get_char(i);
                    if c == '.' {
                        proof {
                            lemma_digit_prefix_end(name@.skip(i as int + 1));
                        }
                        let (mino, j) = scan_num(name, i + 1);
                        match mino {
                            Option::None => Err(ParseError { input: String::from_str(name) }),
                            Option::Some(n) => {
                                let minor = Some(n);
                                if j == len {
                                    Ok(Tag { major, minor, architecture: None })
                                } else {
                                    let c2 = name.get_char(j);
                                    proof {
                                        let rest = name@.skip(i as int + 1);
                                        let jr = digit_prefix_end(rest);
                                        assert(rest[jr] == name@[j as int]);
                                        assert(rest.skip(jr + 1) =~= name@.skip(j as int + 1));
                                    }
                                    if c2 == '-' {
                                        match scan_arch(name, j + 1) {
                                            Option::Some(a) => Ok(
                                                Tag { major, minor, architecture: Some(a) },
                                            ),
                                            Option::None => Err(
                                                ParseError { input: String::from_str(name) },
                                            ),
                                        }
                                    } else {
                                        Err(ParseError { input: String::from_str(name) })
                                    }
                                }
                            },
                        }
                    } else if c == '-' {
                        match scan_arch(name, i + 1) {
                            Option::Some(a) => Ok(Tag { major, minor: None, architecture: Some(a) }),
                            Option::None => Err(ParseError { input: String::from_str(name) }),
                        }
                    } else {
                        Err(ParseError { input: String::from_str(name) })
                    }
                }
            },
        }
    }

    /// The canonical string of a tag: the exact inverse of strict parsing
    /// for every tag strict parsing can produce.
    pub fn render(&self) -> (r: String)
        requires
            self.wf(),
        ensures
            r@ == spec_render(*self),
    {
        let mut out = String::new();
        if let Option::Some(m) = self.major {
            let ms = u32_to_string(m);
            out.append(ms.as_str());
        }
        if let Option::Some(n) = self.minor {
            proof {
                reveal_strlit(".");
                assert("."@ =~= seq!['.']);
            }
            out.append(".");
            let ns = u32_to_string(n);
            out.append(ns.as_str());
        }
        match self.architecture {
            Option::Some(Architecture::Bits32) => {
                proof {
                    reveal_strlit("-32");
                    assert("-32"@ =~= seq!['-'] + arch_str(Architecture::Bits32));
                }
                out.append("-32");
            },
            Option::Some(Architecture::Bits64) => {
                proof {
                    reveal_strlit("-64");
                    assert("-64"@ =~= seq!['-'] + arch_str(Architecture::Bits64));
                }
                out.append("-64");
            },
            Option::None => {},
        }
        proof {
            assert(out@ =~= spec_render(*self));
        }
        out
    }
}

/// Round trip: strict parsing inverts rendering. Any string that strict
/// parsing accepts is rendered back, character for character, by the tag it
/// parses to.
pub proof fn lemma_parse_render_round_trip(s: Seq<char>)
    requires
        spec_parse(s) is Some,
    ensures
        spec_parse(s)->Some_0.wf(),
        spec_render(spec_parse(s)->Some_0) == s,
{
    let t = spec_parse(s)->Some_0;
    let i = digit_prefix_end(s);
    lemma_digit_prefix_end(s);
    let maj = s.take(i);
    lemma_canonical_num_str(maj);
    assert(num_str(num_val(maj)) == maj);
    assert(t.major == Some(num_val(maj) as u32));
    assert((num_val(maj) as u32) as nat == num_val(maj));
    if i == s.len() {
        assert(maj =~= s);
        assert(spec_render(t) =~= num_str(num_val(maj) as u32 as nat));
    } else if s[i] == '.' {
        let rest = s.skip(i + 1);
        let j = digit_prefix_end(rest);
        lemma_digit_prefix_end(rest);
        let min = rest.take(j);
        lemma_canonical_num_str(min);
        assert(num_str(num_val(min)) == min);
        assert((num_val(min) as u32) as nat == num_val(min));
        if j == rest.len() {
            assert(min =~= rest);
            assert(spec_render(t) =~= maj + (seq!['.'] + min));
            assert(s =~= maj + (seq!['.'] + rest));
        } else {
            let a = spec_arch(rest.skip(j + 1))->Some_0;
            assert(arch_str(a) == rest.skip(j + 1));
            assert(spec_render(t) =~= (maj + (seq!['.'] + min)) + (seq!['-'] + rest.skip(j + 1)));
            assert(s =~= (maj + (seq!['.'] + min)) + (seq!['-'] + rest.skip(j + 1)));
        }
    } else {
        let a = spec_arch(s.skip(i + 1))->Some_0;
        assert(arch_str(a) == s.skip(i + 1));
        assert(spec_render(t) =~= maj + (seq!['-'] + s.skip(i + 1)));
        assert(s =~= maj + (seq!['-'] + s.skip(i + 1)));
    }
}

/// The tag order is a strict total order: irreflexive, antisymmetric,
/// transitive, and total. Together with [`crate::resolve::lemma_sorted_distinct_unique`]
/// this is what gives a sorted candidate set a well-defined maximum and makes
/// sorting deterministic.
pub proof fn lemma_tag_order_strict_total(a: Tag, b: Tag, c: Tag)
    ensures
        !tag_lt(a, a),
        tag_lt(a, b) ==> !tag_lt(b, a),
        tag_lt(a, b) && tag_lt(b, c) ==> tag_lt(a, c),
        a != b ==> tag_lt(a, b) || tag_lt(b, a),
{
}

/// Containment is reflexive: a tag, read as a pattern, matches itself.
pub proof fn lemma_contains_reflexive(t: Tag)
    ensures
        spec_contains(t, t),
{
}

/// The fully-unspecified pattern matches every candidate.
pub proof fn lemma_unspecified_contains_all(c: Tag)
    ensures
        spec_contains(Tag { major: None, minor: None, architecture: None }, c),
{
}

} // verus!
