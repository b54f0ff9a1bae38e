//! The grammar of an identity line,
//!
//! ```text
//! <path>: [LABEL="<label>"] ... UUID="<uuid>" ... TYPE="<type>" ... [PARTUUID="<partuuid>"]
//! ```
//!
//! as a function on characters, and what follows from it: which lines are
//! identity lines, and what a line says that was written in the plain way.

use vstd::prelude::*;
use crate::text::{find, has_at, lemma_find, lemma_has_at_prefix, occurs};

verus! {

/// What opens the value of the mandatory UUID.
pub open spec fn uuid_key() -> Seq<char> {
    "UUID=\""@
}

/// What opens the value of the mandatory file-system type.
pub open spec fn type_key() -> Seq<char> {
    "TYPE=\""@
}

/// What opens the value of the optional label.
pub open spec fn label_key() -> Seq<char> {
    "LABEL=\""@
}

/// What opens the value of the optional partition UUID.
pub open spec fn partuuid_key() -> Seq<char> {
    "PARTUUID=\""@
}

/// What closes a value.
pub open spec fn quote() -> Seq<char> {
    seq!['"']
}

/// What closes the path.
pub open spec fn colon() -> Seq<char> {
    seq![':']
}

/// The five texts that an identity line gives.
pub struct Fields {
    pub name: Seq<char>,
    pub label: Seq<char>,
    pub uuid: Seq<char>,
    pub d_type: Seq<char>,
    pub partuuid: Seq<char>,
}

/// A UUID opens at `i` and closes at `j`, and after it a type opens at `k`
/// and closes at `l`.
pub open spec fn ids_at(s: Seq<char>, i: int, j: int, k: int, l: int) -> bool {
    &&& has_at(s, uuid_key(), i)
    &&& i + uuid_key().len() <= j
    &&& has_at(s, quote(), j)
    &&& j < k
    &&& has_at(s, type_key(), k)
    &&& k + type_key().len() <= l
    &&& has_at(s, quote(), l)
}

/// At or after `from` the line holds a closed UUID and, after it, a closed
/// type.
pub open spec fn has_ids(s: Seq<char>, from: int) -> bool {
    exists|i: int, j: int, k: int, l: int| from <= i && #[trigger] ids_at(s, i, j, k, l)
}

/// The line can be split at `c`: a colon with a path before it and both
/// mandatory fields after it.
pub open spec fn is_split(s: Seq<char>, c: int) -> bool {
    0 < c && has_at(s, colon(), c) && has_ids(s, c + 1)
}

/// The last index at or before `upto` at which the line can be split.
pub open spec fn last_split(s: Seq<char>, upto: int) -> Option<int>
    decreases upto,
{
    if upto <= 0 {
        None
    } else if is_split(s, upto) {
        Some(upto)
    } else {
        last_split(s, upto - 1)
    }
}

/// The first index at or after `from` that holds no space.
pub open spec fn skip_spaces(s: Seq<char>, from: int) -> int
    decreases s.len() - from,
{
    if 0 <= from < s.len() && s[from] == ' ' {
        skip_spaces(s, from + 1)
    } else {
        from
    }
}

/// Where the label closes, where the line names one at `at`: the key
/// stands there, its value is closed, and both mandatory fields follow.
pub open spec fn label_end(s: Seq<char>, at: int) -> Option<int> {
    if has_at(s, label_key(), at) {
        match find(s, quote(), at + label_key().len()) {
            Some(q) => if has_ids(s, q + 1) {
                Some(q)
            } else {
                None
            },
            None => None,
        }
    } else {
        None
    }
}

/// Where the partition UUID begins, where the line names one at or after
/// `from`: its value runs up to the quote that ends the line.
pub open spec fn partuuid_start(s: Seq<char>, from: int) -> Option<int> {
    if s.len() > 0 && s.last() == '"' {
        match find(s, partuuid_key(), from) {
            Some(p) => if p + partuuid_key().len() < s.len() {
                Some(p + partuuid_key().len())
            } else {
                None
            },
            None => None,
        }
    } else {
        None
    }
}

/// The fields of a line that is split at `c`: the path is what stands before
/// `c`; a label counts only right after the colon and its spaces; the UUID
/// and the type are the first that follow, each up to its first quote; the
/// partition UUID is the first that follows the type.
pub open spec fn fields_after(s: Seq<char>, c: int) -> Fields {
    let at = skip_spaces(s, c + 1);
    let label = label_end(s, at);
    let from = match label {
        Some(q) => q + 1,
        None => at,
    };
    let i = find(s, uuid_key(), from).unwrap();
    let j = find(s, quote(), i + uuid_key().len()).unwrap();
    let k = find(s, type_key(), j + 1).unwrap();
    let l = find(s, quote(), k + type_key().len()).unwrap();
    Fields {
        name: s.take(c),
        label: match label {
            Some(q) => s.subrange(at + label_key().len(), q),
            None => Seq::empty(),
        },
        uuid: s.subrange(i + uuid_key().len(), j),
        d_type: s.subrange(k + type_key().len(), l),
        partuuid: match partuuid_start(s, l + 1) {
            Some(p) => s.subrange(p, s.len() - 1),
            None => Seq::empty(),
        },
    }
}

/// What an identity line says: nothing where it holds a newline or cannot
/// be split, else its fields after the last colon at which it can.
pub open spec fn parse_line(s: Seq<char>) -> Option<Fields> {
    if s.contains('\n') {
        None
    } else {
        match last_split(s, s.len() - 1) {
            Some(c) => Some(fields_after(s, c)),
            None => None,
        }
    }
}

/// What `last_split` returns is the last place at or before `upto` at which
/// the line can be split, and it returns one whenever there is such a place.
pub proof fn lemma_last_split(s: Seq<char>, upto: int)
    ensures
        match last_split(s, upto) {
            Some(c) => 0 < c <= upto && is_split(s, c) && forall|d: int|
                c < d <= upto ==> !is_split(s, d),
            None => forall|d: int| d <= upto ==> !is_split(s, d),
        },
    decreases upto,
{
    if upto <= 0 {
    } else if is_split(s, upto) {
    } else {
        lemma_last_split(s, upto - 1);
    }
}

/// Where both mandatory fields follow `from`, the first UUID after `from`,
/// its first quote, the first type after that and its first quote are there.
pub proof fn lemma_ids_first(s: Seq<char>, from: int)
    requires
        0 <= from,
        has_ids(s, from),
    ensures
        find(s, uuid_key(), from) is Some,
        ({
            let i = find(s, uuid_key(), from).unwrap();
            &&& from <= i
            &&& find(s, quote(), i + uuid_key().len()) is Some
            &&& ({
                let j = find(s, quote(), i + uuid_key().len()).unwrap();
                &&& find(s, type_key(), j + 1) is Some
                &&& ({
                    let k = find(s, type_key(), j + 1).unwrap();
                    &&& find(s, quote(), k + type_key().len()) is Some
                    &&& ids_at(s, i, j, k, find(s, quote(), k + type_key().len()).unwrap())
                })
            })
        }),
{
    let (i0, j0, k0, l0) = choose|i: int, j: int, k: int, l: int|
        from <= i && #[trigger] ids_at(s, i, j, k, l);
    lemma_find(s, uuid_key(), from);
    let i = find(s, uuid_key(), from).unwrap();
    assert(i <= i0);
    lemma_find(s, quote(), i + uuid_key().len());
    let j = find(s, quote(), i + uuid_key().len()).unwrap();
    assert(j <= j0);
    lemma_find(s, type_key(), j + 1);
    let k = find(s, type_key(), j + 1).unwrap();
    assert(k <= k0);
    lemma_find(s, quote(), k + type_key().len());
    let l = find(s, quote(), k + type_key().len()).unwrap();
    assert(l <= l0);
}

/// Spaces, and nothing else, stand between `from` and where `skip_spaces`
/// ends.
pub proof fn lemma_skip_spaces(s: Seq<char>, from: int)
    requires
        0 <= from,
    ensures
        from <= skip_spaces(s, from),
        skip_spaces(s, from) <= s.len() || skip_spaces(s, from) == from,
        forall|n: int| from <= n < skip_spaces(s, from) ==> #[trigger] s[n] == ' ',
        skip_spaces(s, from) < s.len() ==> s[skip_spaces(s, from)] != ' ',
    decreases s.len() - from,
{
    if from < s.len() && s[from] == ' ' {
        lemma_skip_spaces(s, from + 1);
        assert forall|n: int| from <= n < skip_spaces(s, from) implies #[trigger] s[n] == ' ' by {
            if n > from {
                assert(from + 1 <= n < skip_spaces(s, from + 1));
            }
        }
    }
}

/// In an identity line the mandatory fields are there to be read: after
/// the label, or after the colon and its spaces where the line names no
/// label, a UUID opens and closes, and after it a type opens and closes.
pub proof fn lemma_fields_are_found(s: Seq<char>)
    requires
        parse_line(s) is Some,
    ensures
        ({
            let c = last_split(s, s.len() - 1).unwrap();
            let at = skip_spaces(s, c + 1);
            let from = match label_end(s, at) {
                Some(q) => q + 1,
                None => at,
            };
            let i = find(s, uuid_key(), from).unwrap();
            let j = find(s, quote(), i + uuid_key().len()).unwrap();
            let k = find(s, type_key(), j + 1).unwrap();
            let l = find(s, quote(), k + type_key().len()).unwrap();
            &&& 0 < c < at <= from <= i
            &&& ids_at(s, i, j, k, l)
            &&& l < s.len()
            &&& label_end(s, at) matches Some(q) ==> at + label_key().len() <= q
        }),
{
    lemma_last_split(s, s.len() - 1);
    let c = last_split(s, s.len() - 1).unwrap();
    let at = skip_spaces(s, c + 1);
    lemma_skip_spaces(s, c + 1);
    assert(has_ids(s, at)) by {
        let (i, j, k, l) = choose|i: int, j: int, k: int, l: int|
            c + 1 <= i && #[trigger] ids_at(s, i, j, k, l);
        reveal_strlit("UUID=\"");
        assert(s.subrange(i, i + uuid_key().len())[0] == s[i]);
        assert(at <= i);
    }
    match label_end(s, at) {
        Some(q) => {
            lemma_find(s, quote(), at + label_key().len());
            lemma_ids_first(s, q + 1);
        },
        None => {
            lemma_ids_first(s, at);
        },
    }
}

/// The path of an identity line is never empty.
pub proof fn lemma_path_is_not_empty(s: Seq<char>)
    ensures
        parse_line(s) matches Some(f) ==> f.name.len() > 0,
{
    lemma_last_split(s, s.len() - 1);
}

/// A line without `UUID=`, or without `TYPE=`, is no identity line.
pub proof fn lemma_missing_key_fails(s: Seq<char>)
    requires
        !occurs(s, "UUID="@) || !occurs(s, "TYPE="@),
    ensures
        parse_line(s) is None,
{
    lemma_last_split(s, s.len() - 1);
    if let Some(c) = last_split(s, s.len() - 1) {
        let (i, j, k, l) = choose|i: int, j: int, k: int, l: int|
            c + 1 <= i && #[trigger] ids_at(s, i, j, k, l);
        reveal_strlit("UUID=\"");
        reveal_strlit("UUID=");
        reveal_strlit("TYPE=\"");
        reveal_strlit("TYPE=");
        assert("UUID="@ =~= uuid_key().subrange(0, 5));
        assert("TYPE="@ =~= type_key().subrange(0, 5));
        lemma_has_at_prefix(s, uuid_key(), "UUID="@, i);
        lemma_has_at_prefix(s, type_key(), "TYPE="@, k);
    }
}

/// The line of a path, a colon and, somewhere after it, a closed UUID and
/// then a closed type, with anything before, between and after them.
pub open spec fn line_with_ids(
    path: Seq<char>,
    before: Seq<char>,
    uuid: Seq<char>,
    between: Seq<char>,
    fs_type: Seq<char>,
    after: Seq<char>,
) -> Seq<char> {
    path + colon() + before + uuid_key() + uuid + quote() + between + type_key() + fs_type
        + quote() + after
}

/// A line that has a path, a colon and, somewhere after it, a closed UUID
/// and then a closed type is an identity line, whatever else it holds but a
/// newline.
pub proof fn lemma_line_with_ids_parses(
    path: Seq<char>,
    before: Seq<char>,
    uuid: Seq<char>,
    between: Seq<char>,
    fs_type: Seq<char>,
    after: Seq<char>,
)
    requires
        path.len() > 0,
        !line_with_ids(path, before, uuid, between, fs_type, after).contains('\n'),
    ensures
        parse_line(line_with_ids(path, before, uuid, between, fs_type, after)) is Some,
{
    let a1 = path + colon() + before;
    let a2 = a1 + uuid_key() + uuid;
    let a3 = a2 + quote() + between;
    let a4 = a3 + type_key() + fs_type;
    let s = a4 + quote() + after;
    let c = path.len() as int;
    let i = a1.len() as int;
    let j = a2.len() as int;
    let k = a3.len() as int;
    let l = a4.len() as int;
    assert(s.subrange(c, c + 1) =~= colon());
    assert(s.subrange(i, i + uuid_key().len()) =~= uuid_key());
    assert(s.subrange(j, j + 1) =~= quote());
    assert(s.subrange(k, k + type_key().len()) =~= type_key());
    assert(s.subrange(l, l + 1) =~= quote());
    assert(ids_at(s, i, j, k, l));
    assert(is_split(s, c));
    lemma_last_split(s, s.len() - 1);
}

/// Every identity line is such a line: it has a path, a colon and,
/// somewhere after it, a closed UUID and then a closed type.
pub proof fn lemma_identity_line_has_ids(s: Seq<char>)
    requires
        parse_line(s) is Some,
    ensures
        !s.contains('\n'),
        exists|
            path: Seq<char>,
            before: Seq<char>,
            uuid: Seq<char>,
            between: Seq<char>,
            fs_type: Seq<char>,
            after: Seq<char>,
        |
            path.len() > 0 && s == #[trigger] line_with_ids(
                path,
                before,
                uuid,
                between,
                fs_type,
                after,
            ),
{
    lemma_last_split(s, s.len() - 1);
    let c = last_split(s, s.len() - 1).unwrap();
    let (i, j, k, l) = choose|i: int, j: int, k: int, l: int|
        c + 1 <= i && #[trigger] ids_at(s, i, j, k, l);
    let path = s.take(c);
    let before = s.subrange(c + 1, i);
    let uuid = s.subrange(i + uuid_key().len(), j);
    let between = s.subrange(j + 1, k);
    let fs_type = s.subrange(k + type_key().len(), l);
    let after = s.skip(l + 1);
    assert(s.subrange(c, c + 1) == colon());
    assert(s.subrange(i, i + uuid_key().len()) == uuid_key());
    assert(s.subrange(j, j + 1) == quote());
    assert(s.subrange(k, k + type_key().len()) == type_key());
    assert(s.subrange(l, l + 1) == quote());
    let a1 = s.take(c) + s.subrange(c, c + 1) + before;
    assert(a1 =~= s.take(i));
    let a2 = a1 + s.subrange(i, i + uuid_key().len()) + uuid;
    assert(a2 =~= s.take(j));
    let a3 = a2 + s.subrange(j, j + 1) + between;
    assert(a3 =~= s.take(k));
    let a4 = a3 + s.subrange(k, k + type_key().len()) + fs_type;
    assert(a4 =~= s.take(l));
    assert(a4 + s.subrange(l, l + 1) + after =~= s);
    assert(s == line_with_ids(path, before, uuid, between, fs_type, after));
}

/// An optional field whose key the line does not hold is empty.
pub proof fn lemma_absent_fields_are_empty(s: Seq<char>)
    ensures
        parse_line(s) matches Some(f) ==> {
            &&& !occurs(s, label_key()) ==> f.label.len() == 0
            &&& !occurs(s, partuuid_key()) ==> f.partuuid.len() == 0
        },
{
    if let Some(c) = last_split(s, s.len() - 1) {
        let at = skip_spaces(s, c + 1);
        let from = match label_end(s, at) {
            Some(q) => q + 1,
            None => at,
        };
        let i = find(s, uuid_key(), from).unwrap();
        let j = find(s, quote(), i + uuid_key().len()).unwrap();
        let k = find(s, type_key(), j + 1).unwrap();
        let l = find(s, quote(), k + type_key().len()).unwrap();
        if l + 1 >= 0 {
            lemma_find(s, partuuid_key(), l + 1);
        }
    }
}

} // verus!
