//! Selection of the best interpreter for a query tag.
//!
//! Three independent lookups, all on plain values handed in by the caller
//! that talked to the store: the best installed interpreter (candidates
//! ranked by the tag order), the user's active-list override (ranked by
//! declared order, never by version), and the tool's own bundled
//! interpreter (a single fixed value, no matching).
//!
//! One deliberate asymmetry: when the install-root value of the top-ranked
//! matching candidate is missing or unreadable, [`get`] surfaces that
//! failure instead of falling back to the next-ranked candidate. Whether
//! that is the right behaviour is an open question of the design; the
//! contracts state it exactly as it stands.

use vstd::prelude::*;

use crate::tag::lemma_tag_order_strict_total;
use crate::tag::spec_contains;
use crate::tag::spec_parse;
use crate::tag::tag_le;
use crate::tag::tag_lt;
use crate::tag::Tag;
use vstd::string::StrSliceExecFns;
use vstd::string::StringExecFns;

verus! {

/// The outcome of opening one store location and reading its default value,
/// as handed in by the caller that performed the store access.
#[derive(Debug, PartialEq, Eq)]
pub enum KeyRead {
    /// The location could not be opened at all; the payload describes why.
    Missing(String),
    /// The location opened, but its value could not be read.
    Unreadable(String),
    /// The value that was read.
    Value(String),
}

/// Why a resolution call failed.
#[derive(Debug, PartialEq, Eq)]
pub enum ResolveError {
    /// A required location or value could not be opened or read; the
    /// payload carries the store's own description of the failure.
    StoreAccess { detail: String },
    /// Every candidate was examined and none satisfied the query, which is
    /// carried for diagnostics.
    NoMatch { query: Tag },
}

/// Whether some enumerated name parses to the tag `t`: the membership
/// predicate of the candidate set. A name that fails strict parsing
/// contributes nothing.
pub open spec fn parsed_from(names: Seq<String>, t: Tag) -> bool {
    exists|k: int| 0 <= k < names.len() && #[trigger] spec_parse(names[k]@) == Some(t)
}

/// Strictly ascending in the tag order: sorted, with no duplicates.
pub open spec fn sorted_strict(s: Seq<Tag>) -> bool {
    forall|a: int, b: int| 0 <= a < b < s.len() ==> tag_lt(#[trigger] s[a], #[trigger] s[b])
}

/// Insert `t` into an ascending candidate list, keeping the order and
/// silently dropping `t` when an equal tag is already present.
fn insert_sorted(tags: &mut Vec<Tag>, t: Tag)
    requires
        sorted_strict(old(tags)@),
    ensures
        sorted_strict(final(tags)@),
        forall|u: Tag| final(tags)@.contains(u) <==> (old(tags)@.contains(u) || u == t),
{
    let ghost orig = tags@;
    let mut idx: usize = 0;
    loop
        invariant
            tags@ == orig,
            sorted_strict(orig),
            idx <= orig.len(),
            forall|k: int| 0 <= k < idx as int ==> tag_lt(#[trigger] orig[k], t),
        ensures
            tags@ == orig,
            idx <= orig.len(),
            forall|k: int| 0 <= k < idx as int ==> tag_lt(#[trigger] orig[k], t),
            (idx as int) < orig.len() ==> !tag_lt(orig[idx as int], t),
        decreases orig.len() - idx,
    {
        if idx == tags.len() {
            break;
        }
        if tags[idx].lt(&t) {
            idx = idx + 1;
        } else {
            break;
        }
    }
    if idx < tags.len() && tags[idx].same(&t) {
        proof {
            assert(orig.contains(t)) by {
                assert(orig[idx as int] == t);
            }
        }
    } else {
        proof {
            if (idx as int) < orig.len() {
                lemma_tag_order_strict_total(t, orig[idx as int], t);
            }
        }
        tags.insert(idx, t);
        proof {
            let upd = tags@;
            assert(upd == orig.insert(idx as int, t));
            assert forall|a: int, b: int| 0 <= a < b < upd.len() implies tag_lt(
                #[trigger] upd[a],
                #[trigger] upd[b],
            ) by {
                let i = idx as int;
                if a < i && b == i {
                    assert(upd[a] == orig[a]);
                } else if a == i && b > i {
                    assert(upd[b] == orig[b - 1]);
                    lemma_tag_order_strict_total(t, orig[i], orig[b - 1]);
                } else if a < i && b > i {
                    assert(upd[a] == orig[a] && upd[b] == orig[b - 1]);
                    if i < b - 1 {
                        lemma_tag_order_strict_total(orig[a], orig[i], orig[b - 1]);
                    }
                } else if a > i {
                    assert(upd[a] == orig[a - 1] && upd[b] == orig[b - 1]);
                } else if b < i {
                    assert(upd[a] == orig[a] && upd[b] == orig[b]);
                }
            }
            assert forall|u: Tag| upd.contains(u) implies (orig.contains(u) || u == t) by {
                let k = choose|k: int| 0 <= k < upd.len() && upd[k] == u;
                let i = idx as int;
                if k < i {
                    assert(orig[k] == u);
                } else if k > i {
                    assert(orig[k - 1] == u);
                }
            }
            assert forall|u: Tag| orig.contains(u) || u == t implies upd.contains(u) by {
                let i = idx as int;
                if u == t {
                    assert(upd[i] == u);
                } else {
                    let k = choose|k: int| 0 <= k < orig.len() && orig[k] == u;
                    if k < i {
                        assert(upd[k] == u);
                    } else {
                        assert(upd[k + 1] == u);
                    }
                }
            }
        }
    }
}

/// Collect the candidate set from the enumerated names of every location:
/// parse each name strictly, skip what fails to parse (one malformed entry
/// never aborts the enumeration), drop duplicates, and keep the survivors
/// in ascending tag order.
pub fn find_installed(names: &Vec<String>) -> (tags: Vec<Tag>)
    ensures
        sorted_strict(tags@),
        forall|t: Tag| tags@.contains(t) <==> parsed_from(names@, t),
{
    let mut tags: Vec<Tag> = Vec::new();
    let mut i: usize = 0;
    while i < names.len()
        invariant
            i <= names@.len(),
            sorted_strict(tags@),
            forall|t: Tag| tags@.contains(t) <==> parsed_from(names@.take(i as int), t),
        decreases names@.len() - i,
    {
        let ghost before = tags@;
        let name: &String = &names[i];
        match Tag::parse_strict(name.as_str()) {
            Ok(t) => {
                insert_sorted(&mut tags, t);
            },
            Err(_) => {},
        }
        proof {
            let pre = names@.take(i as int);
            let cur = names@.take(i as int + 1);
            assert(cur.drop_last() =~= pre);
            assert(cur.last() == names@[i as int]);
            assert forall|t: Tag| tags@.contains(t) implies parsed_from(cur, t) by {
                if parsed_from(pre, t) {
                    let k = choose|k: int|
                        0 <= k < pre.len() && #[trigger] spec_parse(pre[k]@) == Some(t);
                    assert(spec_parse(cur[k]@) == Some(t));
                } else {
                    assert(spec_parse(cur[i as int]@) == Some(t));
                }
            }
            assert forall|t: Tag| parsed_from(cur, t) implies tags@.contains(t) by {
                let k = choose|k: int|
                    0 <= k < cur.len() && #[trigger] spec_parse(cur[k]@) == Some(t);
                if k < i as int {
                    assert(spec_parse(pre[k]@) == Some(t));
                }
            }
        }
        i = i + 1;
    }
    proof {
        assert(names@.take(names@.len() as int) =~= names@);
    }
    tags
}

/// Pick the best installed interpreter for the query: among the enumerated
/// names that parse, the greatest tag (in the tag order) that the query
/// contains. A higher version always wins, and at an equal version a 64-bit
/// build beats a 32-bit one unless the query pins the architecture — both
/// fall out of scanning the ordered candidate set from the top. Fails with
/// `NoMatch`, carrying the query, when no candidate matches.
pub fn find_best_installed(tag: &Tag, names: &Vec<String>) -> (r: Result<Tag, ResolveError>)
    ensures
        match r {
            Ok(best) => parsed_from(names@, best) && spec_contains(*tag, best) && forall|u: Tag|
                parsed_from(names@, u) && spec_contains(*tag, u) ==> tag_le(u, best),
            Err(e) => e == (ResolveError::NoMatch { query: *tag }) && forall|u: Tag|
                parsed_from(names@, u) ==> !spec_contains(*tag, u),
        },
{
    let tags = find_installed(names);
    let mut i: usize = tags.len();
    while i > 0
        invariant
            i <= tags@.len(),
            sorted_strict(tags@),
            forall|t: Tag| tags@.contains(t) <==> parsed_from(names@, t),
            forall|k: int| i as int <= k < tags@.len() ==> !spec_contains(
                *tag,
                #[trigger] tags@[k],
            ),
        decreases i,
    {
        i = i - 1;
        if tag.contains(&tags[i]) {
            let best = tags[i];
            proof {
                assert(tags@.contains(best)) by {
                    assert(tags@[i as int] == best);
                }
                assert forall|u: Tag|
                    parsed_from(names@, u) && spec_contains(*tag, u) implies tag_le(
                    u,
                    best,
                ) by {
                    assert(tags@.contains(u));
                    let k = choose|k: int| 0 <= k < tags@.len() && tags@[k] == u;
                    if k < i as int {
                        assert(tag_lt(tags@[k], tags@[i as int]));
                    }
                }
            }
            return Ok(best);
        }
    }
    proof {
        assert forall|u: Tag| parsed_from(names@, u) implies !spec_contains(*tag, u) by {
            assert(tags@.contains(u));
            let k = choose|k: int| 0 <= k < tags@.len() && tags@[k] == u;
        }
    }
    Err(ResolveError::NoMatch { query: *tag })
}

/// The position of the first `;` in `s`, or the length when there is none.
pub open spec fn semi_end(s: Seq<char>) -> int
    decreases s.len(),
{
    if s.len() == 0 || s[0] == ';' {
        0
    } else {
        1 + semi_end(s.drop_first())
    }
}

/// What `semi_end` marks: no `;` before it, and a `;` (or the end of the
/// string) at it.
pub proof fn lemma_semi_end(s: Seq<char>)
    ensures
        0 <= semi_end(s) <= s.len(),
        forall|k: int| 0 <= k < semi_end(s) ==> s[k] != ';',
        semi_end(s) < s.len() ==> s[semi_end(s)] == ';',
    decreases s.len(),
{
    let e = semi_end(s);
    if s.len() == 0 || s[0] == ';' {
    } else {
        let t = s.drop_first();
        lemma_semi_end(t);
        assert forall|k: int| 0 <= k < e implies s[k] != ';' by {
            if k > 0 {
                assert(t[k - 1] != ';');
            }
        }
        if e < s.len() {
            assert(s[e] == t[e - 1]);
        }
    }
}

/// The converse: a position with no `;` before it and a `;` (or the end)
/// at it is the first `;`.
pub proof fn lemma_semi_end_is(s: Seq<char>, i: int)
    requires
        0 <= i <= s.len(),
        forall|k: int| 0 <= k < i ==> s[k] != ';',
        i < s.len() ==> s[i] == ';',
    ensures
        semi_end(s) == i,
    decreases s.len(),
{
    if s.len() == 0 {
    } else if s[0] == ';' {
        assert(i == 0);
    } else {
        assert(i >= 1);
        let t = s.drop_first();
        assert forall|k: int| 0 <= k < i - 1 implies t[k] != ';' by {
            assert(t[k] == s[k + 1]);
        }
        if i - 1 < t.len() {
            assert(t[i - 1] == s[i]);
        }
        lemma_semi_end_is(t, i - 1);
    }
}

/// The entries of a `;`-separated list, in declared order; n separators
/// give n + 1 entries, empty entries included.
pub open spec fn split_semis(s: Seq<char>) -> Seq<Seq<char>>
    decreases s.len(),
    via split_semis_decreases
{
    let p = semi_end(s);
    if p == s.len() {
        seq![s]
    } else {
        seq![s.take(p)] + split_semis(s.skip(p + 1))
    }
}

#[via_fn]
proof fn split_semis_decreases(s: Seq<char>) {
    lemma_semi_end(s);
}

/// The first entry, in declared order, that parses strictly and that the
/// query contains; an entry that fails to parse is passed over.
pub open spec fn first_match(query: Tag, entries: Seq<Seq<char>>) -> Option<Tag>
    decreases entries.len(),
{
    if entries.len() == 0 {
        None
    } else {
        match spec_parse(entries[0]) {
            Some(t) => if spec_contains(query, t) {
                Some(t)
            } else {
                first_match(query, entries.drop_first())
            },
            None => first_match(query, entries.drop_first()),
        }
    }
}

/// Pick the interpreter the user marked active. `list` is the read outcome
/// of the active-list value, whose entries are separated by `;` in declared
/// priority order: the first entry the query contains wins, regardless of
/// version magnitude — never sort this list. An entry that fails strict
/// parsing is skipped, never fatal; a list that cannot be opened or read is
/// a store-access failure; an exhausted list is `NoMatch`.
pub fn find_best_using(tag: &Tag, list: &KeyRead) -> (r: Result<Tag, ResolveError>)
    ensures
        list is Missing ==> (r matches Err(ResolveError::StoreAccess { detail }) && detail@
            == list->Missing_0@),
        list is Unreadable ==> (r matches Err(ResolveError::StoreAccess { detail }) && detail@
            == list->Unreadable_0@),
        list is Value ==> match first_match(*tag, split_semis(list->Value_0@)) {
            Some(t) => r == Ok::<Tag, ResolveError>(t),
            None => r == Err::<Tag, ResolveError>(ResolveError::NoMatch { query: *tag }),
        },
{
    match list {
        KeyRead::Missing(d) => Err(ResolveError::StoreAccess { detail: d.clone() }),
        KeyRead::Unreadable(d) => Err(ResolveError::StoreAccess { detail: d.clone() }),
        KeyRead::Value(v) => {
            let s: &str = v.as_str();
            let len: usize = s.unicode_len();
            let mut pos: usize = 0;
            proof {
                assert(v@.skip(0) =~= v@);
            }
            loop
                invariant
                    list is Value,
                    list->Value_0@ == v@,
                    pos <= len,
                    len as int == s@.len(),
                    s@ == v@,
                    first_match(*tag, split_semis(v@)) == first_match(
                        *tag,
                        split_semis(v@.skip(pos as int)),
                    ),
                decreases len - pos,
            {
                let mut e: usize = pos;
                loop
                    invariant
                        pos <= e <= len,
                        len as int == s@.len(),
                        s@ == v@,
                        forall|k: int| pos as int <= k < e as int ==> s@[k] != ';',
                    ensures
                        pos <= e <= len,
                        forall|k: int| pos as int <= k < e as int ==> s@[k] != ';',
                        (e as int) < s@.len() ==> s@[e as int] == ';',
                    decreases len - e,
                {
                    if e == len {
                        break;
                    }
                    if s.get_char(e) == ';' {
                        break;
                    }
                    e = e + 1;
                }
                proof {
                    lemma_first_match_step(*tag, v@, pos as int, e as int);
                }
                let entry: &str = s.substring_char(pos, e);
                match Tag::parse_strict(entry) {
                    Ok(t) => {
                        if tag.contains(&t) {
                            return Ok(t);
                        }
                    },
                    Err(_) => {},
                }
                if e == len {
                    return Err(ResolveError::NoMatch { query: *tag });
                }
                pos = e + 1;
            }
        },
    }
}

/// One step of scanning the active list: what the match over the whole
/// remainder comes to, given the bounds of its first entry.
proof fn lemma_first_match_step(q: Tag, whole: Seq<char>, pos: int, e: int)
    requires
        0 <= pos <= e <= whole.len(),
        forall|k: int| pos <= k < e ==> whole[k] != ';',
        e < whole.len() ==> whole[e] == ';',
    ensures
        first_match(q, split_semis(whole.skip(pos))) == ({
            let entry = whole.subrange(pos, e);
            match spec_parse(entry) {
                Some(t) => if spec_contains(q, t) {
                    Some(t)
                } else if e == whole.len() {
                    None::<Tag>
                } else {
                    first_match(q, split_semis(whole.skip(e + 1)))
                },
                None => if e == whole.len() {
                    None::<Tag>
                } else {
                    first_match(q, split_semis(whole.skip(e + 1)))
                },
            }
        }),
{
    let rem = whole.skip(pos);
    let entry = whole.subrange(pos, e);
    assert forall|k: int| 0 <= k < e - pos implies rem[k] != ';' by {
        assert(rem[k] == whole[k + pos]);
    }
    if e - pos < rem.len() {
        assert(rem[e - pos] == whole[e]);
    }
    lemma_semi_end_is(rem, e - pos);
    let p = e - pos;
    assert(rem.take(p) =~= entry);
    if p == rem.len() {
        assert(rem =~= entry);
        assert(split_semis(rem) == seq![entry]);
        assert(split_semis(rem)[0] == entry);
        assert(split_semis(rem).drop_first() =~= Seq::<Seq<char>>::empty());
        assert(first_match(q, Seq::<Seq<char>>::empty()) == None::<Tag>);
    } else {
        assert(split_semis(rem) == seq![entry] + split_semis(rem.skip(p + 1)));
        assert(split_semis(rem)[0] == entry);
        assert(split_semis(rem).drop_first() =~= split_semis(rem.skip(p + 1)));
        assert(rem.skip(p + 1) =~= whole.skip(e + 1));
    }
}

/// The fixed relative executable name below an interpreter's install root.
pub open spec fn exe_suffix() -> Seq<char> {
    "\\python.exe"@
}

/// The fixed relative path of the bundled interpreter below the tool's own
/// install root.
pub open spec fn bundled_suffix() -> Seq<char> {
    "\\lib\\python\\python.exe"@
}

/// The first location whose key opened at all (its read outcome is not
/// `Missing`), or the number of locations when none did.
pub open spec fn first_live(reads: Seq<KeyRead>) -> int
    decreases reads.len(),
{
    if reads.len() == 0 {
        0
    } else if !(reads[0] is Missing) {
        0
    } else {
        1 + first_live(reads.drop_first())
    }
}

/// The converse characterization of `first_live`.
pub proof fn lemma_first_live_is(reads: Seq<KeyRead>, i: int)
    requires
        0 <= i <= reads.len(),
        forall|k: int| 0 <= k < i ==> reads[k] is Missing,
        i < reads.len() ==> !(reads[i] is Missing),
    ensures
        first_live(reads) == i,
    decreases reads.len(),
{
    if reads.len() == 0 {
    } else if !(reads[0] is Missing) {
        assert(i == 0);
    } else {
        assert(i >= 1);
        let t = reads.drop_first();
        assert forall|k: int| 0 <= k < i - 1 implies t[k] is Missing by {
            assert(t[k] == reads[k + 1]);
        }
        if i - 1 < t.len() {
            assert(t[i - 1] == reads[i]);
        }
        lemma_first_live_is(t, i - 1);
    }
}

/// Resolve the executable path of a chosen tag from the per-location read
/// outcomes of its install-root value, in the fixed location priority
/// order. The first location that opens decides: a value there gives the
/// path, an unreadable value there is a store-access failure and is
/// deliberately not retried against a later location (see the module
/// notes); when no location opens, the failure carries the tag.
pub fn get(tag: &Tag, reads: &Vec<KeyRead>) -> (r: Result<String, ResolveError>)
    ensures
        ({
            let k = first_live(reads@);
            &&& k == reads@.len() ==> r == Err::<String, ResolveError>(
                ResolveError::NoMatch { query: *tag },
            )
            &&& k < reads@.len() && reads@[k] is Unreadable ==> (r matches Err(
                ResolveError::StoreAccess { detail },
            ) && detail@ == reads@[k]->Unreadable_0@)
            &&& k < reads@.len() && reads@[k] is Value ==> (r matches Ok(path) && path@
                == reads@[k]->Value_0@ + exe_suffix())
        }),
{
    let mut idx: usize = 0;
    loop
        invariant
            idx <= reads@.len(),
            forall|k: int| 0 <= k < idx as int ==> reads@[k] is Missing,
        ensures
            idx <= reads@.len(),
            forall|k: int| 0 <= k < idx as int ==> reads@[k] is Missing,
            (idx as int) < reads@.len() ==> !(reads@[idx as int] is Missing),
        decreases reads@.len() - idx,
    {
        if idx == reads.len() {
            break;
        }
        let cur: &KeyRead = &reads[idx];
        match cur {
            KeyRead::Missing(_) => {
                idx = idx + 1;
            },
            _ => {
                break;
            },
        }
    }
    proof {
        lemma_first_live_is(reads@, idx as int);
    }
    if idx == reads.len() {
        return Err(ResolveError::NoMatch { query: *tag });
    }
    let cur: &KeyRead = &reads[idx];
    match cur {
        KeyRead::Missing(_) => Err(ResolveError::NoMatch { query: *tag }),
        KeyRead::Unreadable(d) => Err(ResolveError::StoreAccess { detail: d.clone() }),
        KeyRead::Value(v) => {
            let mut out = v.clone();
            out.append("\\python.exe");
            Ok(out)
        },
    }
}

/// The interpreter this tool is distributed with: the read outcome of the
/// tool's own install-root value, with the fixed library path below it. No
/// matching is involved; a missing or unreadable value is a store-access
/// failure.
pub fn find_of_pythonup(install: &KeyRead) -> (r: Result<String, ResolveError>)
    ensures
        install is Missing ==> (r matches Err(ResolveError::StoreAccess { detail }) && detail@
            == install->Missing_0@),
        install is Unreadable ==> (r matches Err(ResolveError::StoreAccess { detail }) && detail@
            == install->Unreadable_0@),
        install is Value ==> (r matches Ok(path) && path@ == install->Value_0@ + bundled_suffix()),
{
    match install {
        KeyRead::Missing(d) => Err(ResolveError::StoreAccess { detail: d.clone() }),
        KeyRead::Unreadable(d) => Err(ResolveError::StoreAccess { detail: d.clone() }),
        KeyRead::Value(v) => {
            let mut out = v.clone();
            out.append("\\lib\\python\\python.exe");
            Ok(out)
        },
    }
}

/// Two strictly ascending lists with the same members are the same list:
/// the ordered candidate set is determined by its members alone, so sorting
/// an already sorted set changes nothing.
pub proof fn lemma_sorted_distinct_unique(a: Seq<Tag>, b: Seq<Tag>)
    requires
        sorted_strict(a),
        sorted_strict(b),
        forall|t: Tag| a.contains(t) <==> b.contains(t),
    ensures
        a == b,
    decreases a.len(),
{
    if a.len() == 0 {
        if b.len() > 0 {
            assert(b.contains(b[0]));
            assert(a.contains(b[0]));
        }
        assert(a =~= b);
    } else {
        assert(a.contains(a[0]));
        assert(b.contains(a[0]));
        let j = choose|j: int| 0 <= j < b.len() && b[j] == a[0];
        assert(a.contains(b[0]));
        let i = choose|i: int| 0 <= i < a.len() && a[i] == b[0];
        assert(a[0] == b[0]) by {
            if i > 0 {
                assert(tag_lt(a[0], a[i]));
                if j > 0 {
                    assert(tag_lt(b[0], b[j]));
                    lemma_tag_order_strict_total(a[0], b[0], a[0]);
                }
            } else {
                if j > 0 {
                    assert(tag_lt(b[0], b[j]));
                    lemma_tag_order_strict_total(b[0], b[0], b[0]);
                }
            }
        }
        let a2 = a.drop_first();
        let b2 = b.drop_first();
        assert forall|x: int, y: int| 0 <= x < y < a2.len() implies tag_lt(
            #[trigger] a2[x],
            #[trigger] a2[y],
        ) by {
            assert(a2[x] == a[x + 1] && a2[y] == a[y + 1]);
        }
        assert forall|x: int, y: int| 0 <= x < y < b2.len() implies tag_lt(
            #[trigger] b2[x],
            #[trigger] b2[y],
        ) by {
            assert(b2[x] == b[x + 1] && b2[y] == b[y + 1]);
        }
        assert forall|t: Tag| a2.contains(t) implies b2.contains(t) by {
            let k = choose|k: int| 0 <= k < a2.len() && a2[k] == t;
            assert(a[k + 1] == t);
            assert(tag_lt(a[0], t));
            assert(b.contains(t));
            let m = choose|m: int| 0 <= m < b.len() && b[m] == t;
            lemma_tag_order_strict_total(t, t, t);
            assert(m != 0);
            assert(b2[m - 1] == t);
        }
        assert forall|t: Tag| b2.contains(t) implies a2.contains(t) by {
            let k = choose|k: int| 0 <= k < b2.len() && b2[k] == t;
            assert(b[k + 1] == t);
            assert(tag_lt(b[0], t));
            assert(a.contains(t));
            let m = choose|m: int| 0 <= m < a.len() && a[m] == t;
            lemma_tag_order_strict_total(t, t, t);
            assert(m != 0);
            assert(a2[m - 1] == t);
        }
        lemma_sorted_distinct_unique(a2, b2);
        assert(a =~= b) by {
            assert(a.len() == a2.len() + 1 && b.len() == b2.len() + 1);
            assert forall|k: int| 0 <= k < a.len() implies a[k] == b[k] by {
                if k > 0 {
                    assert(a[k] == a2[k - 1] && b[k] == b2[k - 1]);
                }
            }
        }
    }
}

} // verus!
