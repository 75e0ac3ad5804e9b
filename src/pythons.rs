//! Picking an installed interpreter for a tag, and where interpreters and
//! their registry entries are found.

use std::cmp::Ordering;

use vstd::prelude::*;
use vstd::string::{StrSliceExecFns, StringExecFns, StringSliceAdditionalSpecFns};
use vstd::utf8::encode_utf8;

use crate::tags::{
    Tag, find_byte, leading_run, lemma_order_total, other_than, tag_len, tag_of, tag_text,
};

verus! {

/// No candidate satisfies the query.
#[derive(Clone, Copy, Debug, PartialEq, Eq, Structural)]
pub struct NoMatchError {
    /// The tag that was asked for.
    pub query: Tag,
}

/// The bytes of each of `names`.
pub open spec fn name_bytes(names: Seq<String>) -> Seq<Seq<u8>> {
    names.map_values(|n: String| encode_utf8(n@))
}

/// The tags of those of `names` that are whole tags, in their order.
pub open spec fn whole_tags(names: Seq<Seq<u8>>) -> Seq<Tag>
    decreases names.len(),
{
    if names.len() == 0 {
        Seq::empty()
    } else {
        let rest = whole_tags(names.drop_last());
        let b = names.last();
        if tag_len(b) == b.len() {
            rest.push(tag_of(b))
        } else {
            rest
        }
    }
}

/// The installed versions, from the names under which they are registered:
/// the names that are not a tag are left out.
pub fn installed_tags(names: &Vec<String>) -> (r: Vec<Tag>)
    ensures
        r@ == whole_tags(name_bytes(names@)),
{
    let ghost all = name_bytes(names@);
    let mut r: Vec<Tag> = Vec::new();
    let mut i: usize = 0;
    while i < names.len()
        invariant
            i <= names@.len(),
            all == name_bytes(names@),
            r@ == whole_tags(all.take(i as int)),
        decreases names@.len() - i,
    {
        let b = names[i].as_str().as_bytes();
        let (tag, len) = Tag::scan(b);
        assert(all.take(i + 1).drop_last() =~= all.take(i as int));
        assert(all.take(i + 1).last() == b@);
        if len == b.len() {
            r.push(tag);
        }
        i = i + 1;
    }
    assert(all.take(names@.len() as int) =~= all);
    r
}

/// Whether `best` is the greatest of the `candidates` that `query` accepts.
pub open spec fn is_best_match(query: Tag, candidates: Seq<Tag>, best: Tag) -> bool {
    &&& candidates.contains(best)
    &&& query.accepts(&best)
    &&& forall|i: int|
        0 <= i < candidates.len() && query.accepts(&candidates[i]) ==> #[trigger] candidates[i].order(
            &best,
        ) != Ordering::Greater
}

/// Picks, among the installed versions, the greatest that `tag` accepts.
///
/// A higher version wins; where two differ only in architecture, the
/// greater marker (64 before 32) wins. The order of `installed` does not
/// matter.
pub fn find_best_installed(tag: &Tag, installed: &Vec<Tag>) -> (r: Result<Tag, NoMatchError>)
    ensures
        match r {
            Ok(best) => is_best_match(*tag, installed@, best),
            Err(e) => e.query == *tag && forall|i: int|
                0 <= i < installed@.len() ==> !tag.accepts(#[trigger] &installed@[i]),
        },
{
    let mut best: Option<Tag> = None;
    let mut i: usize = 0;
    while i < installed.len()
        invariant
            i <= installed@.len(),
            match best {
                None => forall|j: int| 0 <= j < i ==> !tag.accepts(#[trigger] &installed@[j]),
                Some(b) => {
                    &&& exists|j: int| 0 <= j < i && installed@[j] == b
                    &&& tag.accepts(&b)
                    &&& forall|j: int|
                        0 <= j < i && tag.accepts(&installed@[j]) ==> #[trigger] installed@[j].order(
                            &b,
                        ) != Ordering::Greater
                },
            },
        decreases installed@.len() - i,
    {
        let candidate = installed[i];
        if tag.contains(&candidate) {
            match best {
                None => {
                    best = Some(candidate);
                    proof {
                        lemma_order_total(candidate, candidate, candidate);
                    }
                },
                Some(b) => {
                    match candidate.compare(&b) {
                        Ordering::Greater => {
                            best = Some(candidate);
                            assert forall|j: int|
                                0 <= j < i + 1 && tag.accepts(
                                    &installed@[j],
                                ) implies #[trigger] installed@[j].order(&candidate)
                                != Ordering::Greater by {
                                lemma_order_total(installed@[j], b, candidate);
                                lemma_order_total(candidate, b, candidate);
                                lemma_order_total(candidate, candidate, candidate);
                            }
                        },
                        _ => {},
                    }
                },
            }
        }
        i = i + 1;
    }
    match best {
        Some(b) => Ok(b),
        None => Err(NoMatchError { query: *tag }),
    }
}

/// The entries of a `;`-separated list, empty ones included.
pub open spec fn entries(s: Seq<u8>) -> Seq<Seq<u8>>
    decreases s.len(),
{
    let k = leading_run(s, other_than(59));
    if k < s.len() {
        seq![s.subrange(0, k as int)] + entries(s.subrange(k + 1int, s.len() as int))
    } else {
        seq![s]
    }
}

/// The tag of the first entry that is a whole tag and that `query`
/// accepts.
pub open spec fn first_used(query: Tag, es: Seq<Seq<u8>>) -> Option<Tag>
    decreases es.len(),
{
    if es.len() == 0 {
        None
    } else if tag_len(es[0]) == es[0].len() && query.accepts(&tag_of(es[0])) {
        Some(tag_of(es[0]))
    } else {
        first_used(query, es.drop_first())
    }
}

/// Picks, from a `;`-separated list of versions in order of preference,
/// the first that `tag` accepts. Entries that are not a tag are passed
/// over.
pub fn find_best_using(tag: &Tag, versions: &str) -> (r: Result<Tag, NoMatchError>)
    ensures
        r == match first_used(*tag, entries(versions.spec_bytes())) {
            Some(t) => Ok::<Tag, NoMatchError>(t),
            None => Err(NoMatchError { query: *tag }),
        },
{
    let b = versions.as_bytes();
    let n = b.len();
    let ghost all = first_used(*tag, entries(b@));
    assert(b@.subrange(0, n as int) =~= b@);
    let mut start: usize = 0;
    loop
        invariant
            start <= n == b@.len(),
            b@ == versions.spec_bytes(),
            all == first_used(*tag, entries(versions.spec_bytes())),
            first_used(*tag, entries(b@.subrange(start as int, n as int))) == all,
        decreases n - start,
    {
        let e = find_byte(b, start, n, 59);
        let ghost rest = b@.subrange(start as int, n as int);
        let ghost entry = b@.subrange(start as int, e as int);
        proof {
            assert(rest.subrange(0, e - start) =~= entry);
            if e < n {
                assert(rest.subrange(e - start + 1, rest.len() as int) =~= b@.subrange(
                    e + 1,
                    n as int,
                ));
                assert(entries(rest) =~= seq![entry] + entries(b@.subrange(e + 1, n as int)));
            } else {
                assert(entry =~= rest);
                assert(entries(rest) =~= seq![entry]);
            }
        }
        let (t, len) = Tag::scan(&b[start..e]);
        assert(b@.subrange(start as int, e as int) == entry);
        assert(entries(rest).len() > 0 && entries(rest)[0] == entry);
        if len == e - start && tag.contains(&t) {
            assert(first_used(*tag, entries(rest)) == Some(t));
            return Ok(t);
        }
        assert(first_used(*tag, entries(rest)) == first_used(*tag, entries(rest).drop_first()));
        if e == n {
            assert(entries(rest).drop_first() =~= Seq::<Seq<u8>>::empty());
            return Err(NoMatchError { query: *tag });
        }
        assert(entries(rest).drop_first() =~= entries(b@.subrange(e + 1, n as int)));
        start = e + 1;
    }
}

/// A path separator: a backslash or a slash.
pub open spec fn is_separator(c: char) -> bool {
    c == '\\' || c == '/'
}

/// `rest` under the directory `dir`: a backslash goes between them unless
/// `dir` is empty or already ends in a separator.
pub open spec fn joined(dir: Seq<char>, rest: Seq<char>) -> Seq<char> {
    if dir.len() == 0 || is_separator(dir.last()) {
        dir + rest
    } else {
        dir + seq!['\\'] + rest
    }
}

/// Puts `rest` under `dir`, as `joined` says.
fn join(dir: &str, rest: &str) -> (r: String)
    ensures
        r@ == joined(dir@, rest@),
{
    let mut s = dir.to_owned();
    let n = dir.unicode_len();
    if n > 0 {
        let last = dir.get_char(n - 1);
        if last != '\\' && last != '/' {
            s.append("\\");
        }
    }
    s.append(rest);
    proof {
        reveal_strlit("\\");
    }
    s
}

/// The registry key, under the current user, that holds the install
/// directory of the version `tag`.
pub fn install_key(tag: &Tag) -> (r: String)
    ensures
        r@ == joined(joined("Software\\Python\\PythonCore"@, tag_text(*tag)), "InstallPath"@),
{
    let version = tag.to_string();
    let key = join("Software\\Python\\PythonCore", version.as_str());
    join(key.as_str(), "InstallPath")
}

/// The interpreter of an installed version, given its install directory.
pub fn interpreter_in(install_dir: &str) -> (r: String)
    ensures
        r@ == joined(install_dir@, "python.exe"@),
{
    join(install_dir, "python.exe")
}

/// The interpreter bundled with the manager itself, given the manager's
/// install directory.
pub fn find_of_snafu(install_dir: &str) -> (r: String)
    ensures
        r@ == joined(install_dir@, "lib\\python\\python.exe"@),
{
    join(install_dir, "lib\\python\\python.exe")
}

} // verus!
