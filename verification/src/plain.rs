//! Identity lines written in the plain way, one field after the other with
//! nothing between them but a space, and the proof that such a line says
//! what it was made of.

use vstd::prelude::*;
use crate::identity::{
    colon, has_ids, ids_at, is_split, label_end, label_key, last_split, lemma_last_split,
    parse_line, partuuid_key, partuuid_start, quote, skip_spaces, type_key, uuid_key, Fields,
};
use crate::text::{find, has_at, lemma_find_is, lemma_has_char_at, lemma_not_at};

verus! {

/// A value that a plain line can hold: without quote, colon and newline.
pub open spec fn is_plain(v: Seq<char>) -> bool {
    !v.contains('"') && !v.contains(':') && !v.contains('\n')
}

/// The plain line of a device: its path, a colon and a space, then its
/// fields in the order label, UUID, type, partition UUID, each as its key and
/// its value in quotes, with one space between two fields. A label or a
/// partition UUID that is `None` is left out.
pub open spec fn plain_line(
    path: Seq<char>,
    label: Option<Seq<char>>,
    uuid: Seq<char>,
    fs_type: Seq<char>,
    partuuid: Option<Seq<char>>,
) -> Seq<char> {
    path + ": "@ + (match label {
        Some(v) => label_key() + v + "\" "@,
        None => Seq::empty(),
    }) + uuid_key() + uuid + "\" "@ + type_key() + fs_type + quote() + (match partuuid {
        Some(v) => " "@ + partuuid_key() + v + quote(),
        None => Seq::empty(),
    })
}

/// Where the parts of a plain line stand: `(at, i, j, k, l, len)`, for the
/// place after the colon and its space, the UUID's key, the UUID's closing
/// quote, the type's key, the type's closing quote and the length.
spec fn places(
    path: Seq<char>,
    label: Option<Seq<char>>,
    uuid: Seq<char>,
    fs_type: Seq<char>,
    partuuid: Option<Seq<char>>,
) -> (int, int, int, int, int, int) {
    let at: int = path.len() as int + 2;
    let i: int = match label {
        Some(v) => at + 7 + v.len() + 2,
        None => at,
    };
    let j: int = i + 6 + uuid.len();
    let k: int = j + 2;
    let l: int = k + 6 + fs_type.len();
    let len: int = match partuuid {
        Some(v) => l + 13 + v.len(),
        None => l + 1,
    };
    (at, i, j, k, l, len)
}

/// `s` has the shape of the plain line of the given parts.
spec fn has_shape(
    s: Seq<char>,
    path: Seq<char>,
    label: Option<Seq<char>>,
    uuid: Seq<char>,
    fs_type: Seq<char>,
    partuuid: Option<Seq<char>>,
) -> bool {
    let (at, i, j, k, l, len) = places(path, label, uuid, fs_type, partuuid);
    &&& s.len() == len
    &&& s.take(at - 2) == path
    &&& s[at - 2] == ':'
    &&& s[at - 1] == ' '
    &&& label matches Some(v) ==> {
        &&& has_at(s, label_key(), at)
        &&& s.subrange(at + 7, i - 2) == v
        &&& s[i - 2] == '"'
        &&& s[i - 1] == ' '
    }
    &&& has_at(s, uuid_key(), i)
    &&& s.subrange(i + 6, j) == uuid
    &&& s[j] == '"'
    &&& s[j + 1] == ' '
    &&& has_at(s, type_key(), k)
    &&& s.subrange(k + 6, l) == fs_type
    &&& s[l] == '"'
    &&& partuuid matches Some(v) ==> {
        &&& s[l + 1] == ' '
        &&& has_at(s, partuuid_key(), l + 2)
        &&& s.subrange(l + 12, len - 1) == v
        &&& s[len - 1] == '"'
    }
    &&& forall|n: int| 0 <= n < s.len() ==> s[n] != '\n'
    &&& forall|n: int| at - 2 < n < s.len() ==> s[n] != ':'
}

/// A plain line has the shape of a plain line.
proof fn lemma_plain_line_shape(
    path: Seq<char>,
    label: Option<Seq<char>>,
    uuid: Seq<char>,
    fs_type: Seq<char>,
    partuuid: Option<Seq<char>>,
)
    requires
        !path.contains('\n'),
        label matches Some(v) ==> is_plain(v),
        is_plain(uuid),
        is_plain(fs_type),
        partuuid matches Some(v) ==> is_plain(v),
    ensures
        has_shape(
            plain_line(path, label, uuid, fs_type, partuuid),
            path,
            label,
            uuid,
            fs_type,
            partuuid,
        ),
{
    reveal_strlit(": ");
    reveal_strlit("\" ");
    reveal_strlit(" ");
    reveal_strlit("UUID=\"");
    reveal_strlit("TYPE=\"");
    reveal_strlit("LABEL=\"");
    reveal_strlit("PARTUUID=\"");
    let lab = match label {
        Some(v) => label_key() + v + "\" "@,
        None => Seq::empty(),
    };
    let part = match partuuid {
        Some(v) => " "@ + partuuid_key() + v + quote(),
        None => Seq::empty(),
    };
    let t1 = path + ": "@;
    let t2 = t1 + lab;
    let t3 = t2 + uuid_key();
    let t4 = t3 + uuid;
    let t5 = t4 + "\" "@;
    let t6 = t5 + type_key();
    let t7 = t6 + fs_type;
    let t8 = t7 + quote();
    let s = t8 + part;
    assert(s == plain_line(path, label, uuid, fs_type, partuuid));
    let (at, i, j, k, l, len) = places(path, label, uuid, fs_type, partuuid);
    assert(i == t2.len());
    assert(l == t7.len());
    assert(s.take(at - 2) =~= path);
    match label {
        Some(v) => {
            assert(s.subrange(at, at + 7) =~= label_key());
            assert(s.subrange(at + 7, i - 2) =~= v);
        },
        None => {},
    }
    assert(s.subrange(i, i + 6) =~= uuid_key());
    assert(s.subrange(i + 6, j) =~= uuid);
    assert(s.subrange(k, k + 6) =~= type_key());
    assert(s.subrange(k + 6, l) =~= fs_type);
    match partuuid {
        Some(v) => {
            assert(s.subrange(l + 2, l + 12) =~= partuuid_key());
            assert(s.subrange(l + 12, len - 1) =~= v);
        },
        None => {},
    }
    assert forall|n: int| 0 <= n < s.len() implies s[n] != '\n' by {
        lemma_plain_line_char(path, label, uuid, fs_type, partuuid, n);
    }
    assert forall|n: int| at - 2 < n < s.len() implies s[n] != ':' by {
        lemma_plain_line_char(path, label, uuid, fs_type, partuuid, n);
    }
}

/// In a line of the shape of a plain line, the first quote from the start
/// of a value is the one that closes it.
proof fn lemma_value_ends(s: Seq<char>, v: Seq<char>, start: int, end: int)
    requires
        0 <= start <= end < s.len(),
        s.subrange(start, end) == v,
        !v.contains('"'),
        s[end] == '"',
    ensures
        find(s, quote(), start) == Some(end),
{
    lemma_has_char_at(s, '"', end);
    assert forall|n: int| start <= n < end implies !has_at(s, quote(), n) by {
        lemma_has_char_at(s, '"', n);
        assert(s[n] == v[n - start]);
    }
    lemma_find_is(s, quote(), start, end);
}

/// A line of the shape of a plain line says what the shape was made of.
proof fn lemma_shape_parses(
    s: Seq<char>,
    path: Seq<char>,
    label: Option<Seq<char>>,
    uuid: Seq<char>,
    fs_type: Seq<char>,
    partuuid: Option<Seq<char>>,
)
    requires
        path.len() > 0,
        label matches Some(v) ==> is_plain(v),
        is_plain(uuid),
        is_plain(fs_type),
        partuuid matches Some(v) ==> is_plain(v),
        has_shape(s, path, label, uuid, fs_type, partuuid),
    ensures
        parse_line(s) == Some(
            Fields {
                name: path,
                label: match label {
                    Some(v) => v,
                    None => Seq::empty(),
                },
                uuid,
                d_type: fs_type,
                partuuid: match partuuid {
                    Some(v) => v,
                    None => Seq::empty(),
                },
            },
        ),
{
    reveal_strlit("UUID=\"");
    reveal_strlit("TYPE=\"");
    reveal_strlit("LABEL=\"");
    reveal_strlit("PARTUUID=\"");
    let (at, i, j, k, l, len) = places(path, label, uuid, fs_type, partuuid);
    let c = at - 2;
    lemma_has_char_at(s, ':', c);
    lemma_has_char_at(s, '"', j);
    lemma_has_char_at(s, '"', l);
    assert(ids_at(s, i, j, k, l));
    assert(is_split(s, c));
    lemma_last_split(s, s.len() - 1);
    assert(last_split(s, s.len() - 1) == Some(c)) by {
        assert forall|d: int| c < d implies !is_split(s, d) by {
            lemma_has_char_at(s, ':', d);
        }
    }
    assert(skip_spaces(s, c + 1) == at) by {
        assert(s.subrange(i, i + 6)[0] == s[i]);
        if label is Some {
            assert(s.subrange(at, at + 7)[0] == s[at]);
        }
        assert(s[at] != ' ');
        assert(skip_spaces(s, at) == at);
    }
    let from = match label {
        Some(v) => i - 1,
        None => at,
    };
    match label {
        Some(v) => {
            lemma_value_ends(s, v, at + 7, i - 2);
            assert(has_ids(s, i - 1));
            assert(label_end(s, at) == Some(i - 2));
            lemma_not_at(s, uuid_key(), i - 1);
        },
        None => {
            assert(s.subrange(i, i + 6)[0] == s[i]);
            lemma_not_at(s, label_key(), at);
            assert(label_end(s, at) is None);
        },
    }
    lemma_find_is(s, uuid_key(), from, i);
    lemma_value_ends(s, uuid, i + 6, j);
    lemma_not_at(s, type_key(), j + 1);
    lemma_find_is(s, type_key(), j + 1, k);
    lemma_value_ends(s, fs_type, k + 6, l);
    match partuuid {
        Some(v) => {
            lemma_not_at(s, partuuid_key(), l + 1);
            lemma_find_is(s, partuuid_key(), l + 1, l + 2);
            assert(partuuid_start(s, l + 1) == Some(l + 12));
        },
        None => {
            assert(find(s, partuuid_key(), l + 1) is None);
            assert(partuuid_start(s, l + 1) is None);
        },
    }
    assert(!s.contains('\n'));
}

/// A plain line says what it was made of: the path and the values come
/// back as they are, and a field that was left out comes back empty.
pub proof fn lemma_plain_line(
    path: Seq<char>,
    label: Option<Seq<char>>,
    uuid: Seq<char>,
    fs_type: Seq<char>,
    partuuid: Option<Seq<char>>,
)
    requires
        path.len() > 0,
        !path.contains('\n'),
        label matches Some(v) ==> is_plain(v),
        is_plain(uuid),
        is_plain(fs_type),
        partuuid matches Some(v) ==> is_plain(v),
    ensures
        parse_line(plain_line(path, label, uuid, fs_type, partuuid)) == Some(
            Fields {
                name: path,
                label: match label {
                    Some(v) => v,
                    None => Seq::empty(),
                },
                uuid,
                d_type: fs_type,
                partuuid: match partuuid {
                    Some(v) => v,
                    None => Seq::empty(),
                },
            },
        ),
{
    lemma_plain_line_shape(path, label, uuid, fs_type, partuuid);
    lemma_shape_parses(
        plain_line(path, label, uuid, fs_type, partuuid),
        path,
        label,
        uuid,
        fs_type,
        partuuid,
    );
}

/// Behind its path, a plain line holds no newline, and behind the colon
/// after the path it holds no colon.
proof fn lemma_plain_line_char(
    path: Seq<char>,
    label: Option<Seq<char>>,
    uuid: Seq<char>,
    fs_type: Seq<char>,
    partuuid: Option<Seq<char>>,
    n: int,
)
    requires
        !path.contains('\n'),
        label matches Some(v) ==> is_plain(v),
        is_plain(uuid),
        is_plain(fs_type),
        partuuid matches Some(v) ==> is_plain(v),
        0 <= n < plain_line(path, label, uuid, fs_type, partuuid).len(),
    ensures
        plain_line(path, label, uuid, fs_type, partuuid)[n] != '\n',
        n > path.len() ==> plain_line(path, label, uuid, fs_type, partuuid)[n] != ':',
{
    reveal_strlit(": ");
    reveal_strlit("\" ");
    reveal_strlit(" ");
    reveal_strlit("UUID=\"");
    reveal_strlit("TYPE=\"");
    reveal_strlit("LABEL=\"");
    reveal_strlit("PARTUUID=\"");
    let lab = match label {
        Some(v) => label_key() + v + "\" "@,
        None => Seq::empty(),
    };
    let part = match partuuid {
        Some(v) => " "@ + partuuid_key() + v + quote(),
        None => Seq::empty(),
    };
    let t1 = path + ": "@;
    let t2 = t1 + lab;
    let t3 = t2 + uuid_key();
    let t4 = t3 + uuid;
    let t5 = t4 + "\" "@;
    let t6 = t5 + type_key();
    let t7 = t6 + fs_type;
    let t8 = t7 + quote();
    let s = t8 + part;
    assert(s == plain_line(path, label, uuid, fs_type, partuuid));
    if n < path.len() {
        assert(s[n] == path[n]);
    } else if n < t1.len() {
    } else if n < t2.len() {
        let v = label.unwrap();
        let m = n - t1.len();
        assert(s[n] == lab[m]);
        if 7 <= m < 7 + v.len() {
            assert(lab[m] == v[m - 7]);
        }
    } else if n < t3.len() {
    } else if n < t4.len() {
        assert(s[n] == uuid[n - t3.len()]);
    } else if n < t5.len() {
    } else if n < t6.len() {
    } else if n < t7.len() {
        assert(s[n] == fs_type[n - t6.len()]);
    } else if n < t8.len() {
    } else {
        let v = partuuid.unwrap();
        let m = n - t8.len();
        assert(s[n] == part[m]);
        if 11 <= m < 11 + v.len() {
            assert(part[m] == v[m - 11]);
        }
    }
}

} // verus!
