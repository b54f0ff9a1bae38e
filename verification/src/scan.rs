//! The scanner for identity lines: a few passes over the characters of a
//! line, proved to find what the grammar says it holds.

use vstd::prelude::*;
use crate::identity::{
    colon, fields_after, has_ids, ids_at, is_split, label_end, label_key, last_split,
    lemma_ids_first, lemma_last_split, parse_line, partuuid_key, quote, skip_spaces, type_key, uuid_key, Fields,
};
use crate::text::{
    find, find_from, has_at, lemma_find, lemma_rfind, rfind, rfind_upto, stands_at, to_chars,
};

verus! {

/// The patterns of the grammar, as characters.
pub struct Keys {
    uuid: Vec<char>,
    fs_type: Vec<char>,
    label: Vec<char>,
    partuuid: Vec<char>,
    quote: Vec<char>,
    colon: Vec<char>,
}

impl Keys {
    /// Each pattern is the one that the grammar names.
    pub closed spec fn wf(&self) -> bool {
        &&& self.uuid@ == uuid_key()
        &&& self.fs_type@ == type_key()
        &&& self.label@ == label_key()
        &&& self.partuuid@ == partuuid_key()
        &&& self.quote@ == quote()
        &&& self.colon@ == colon()
    }

    pub fn new() -> (keys: Keys)
        ensures
            keys.wf(),
    {
        let mut quote: Vec<char> = Vec::new();
        quote.push('"');
        let mut colon: Vec<char> = Vec::new();
        colon.push(':');
        assert(quote@ =~= seq!['"']);
        assert(colon@ =~= seq![':']);
        Keys {
            uuid: to_chars("UUID=\""),
            fs_type: to_chars("TYPE=\""),
            label: to_chars("LABEL=\""),
            partuuid: to_chars("PARTUUID=\""),
            quote,
            colon,
        }
    }
}

/// Where each field of a line stands: the index of its first character and
/// the index after its last. A field that the line does not give is empty.
pub struct Spans {
    pub name: (usize, usize),
    pub label: (usize, usize),
    pub uuid: (usize, usize),
    pub d_type: (usize, usize),
    pub partuuid: (usize, usize),
}

impl Spans {
    /// Every span lies in a line of `len` characters.
    pub open spec fn fits(&self, len: nat) -> bool {
        &&& self.name.0 <= self.name.1 <= len
        &&& self.label.0 <= self.label.1 <= len
        &&& self.uuid.0 <= self.uuid.1 <= len
        &&& self.d_type.0 <= self.d_type.1 <= len
        &&& self.partuuid.0 <= self.partuuid.1 <= len
    }

    /// What the spans cut out of `s`.
    pub open spec fn cut(&self, s: Seq<char>) -> Fields {
        Fields {
            name: s.subrange(self.name.0 as int, self.name.1 as int),
            label: s.subrange(self.label.0 as int, self.label.1 as int),
            uuid: s.subrange(self.uuid.0 as int, self.uuid.1 as int),
            d_type: s.subrange(self.d_type.0 as int, self.d_type.1 as int),
            partuuid: s.subrange(self.partuuid.0 as int, self.partuuid.1 as int),
        }
    }
}

/// The last index at which a UUID opens that is closed and followed by a
/// closed type, found from the right: the last quote, the last type before
/// it, the last quote before that, the last UUID before that.
spec fn ids_limit(s: Seq<char>) -> Option<int> {
    match rfind(s, quote(), s.len() - 1) {
        Some(l) => match rfind(s, type_key(), l - type_key().len()) {
            Some(k) => match rfind(s, quote(), k - 1) {
                Some(j) => rfind(s, uuid_key(), j - uuid_key().len()),
                None => None,
            },
            None => None,
        },
        None => None,
    }
}

/// Both mandatory fields follow `from` exactly when `from` is not beyond
/// the limit, and a UUID opens at the limit.
proof fn lemma_ids_limit(s: Seq<char>, from: int)
    ensures
        has_ids(s, from) <==> (match ids_limit(s) {
            Some(m) => from <= m,
            None => false,
        }),
        ids_limit(s) matches Some(m) ==> has_at(s, uuid_key(), m),
{
    let ulen = uuid_key().len() as int;
    let tlen = type_key().len() as int;
    lemma_rfind(s, quote(), s.len() - 1);
    if let Some(l) = rfind(s, quote(), s.len() - 1) {
        lemma_rfind(s, type_key(), l - tlen);
        if let Some(k) = rfind(s, type_key(), l - tlen) {
            lemma_rfind(s, quote(), k - 1);
            if let Some(j) = rfind(s, quote(), k - 1) {
                lemma_rfind(s, uuid_key(), j - ulen);
                if let Some(m) = rfind(s, uuid_key(), j - ulen) {
                    if from <= m {
                        assert(ids_at(s, m, j, k, l));
                    }
                }
            }
        }
    }
    if has_ids(s, from) {
        let (i, j, k, l) = choose|i: int, j: int, k: int, l: int|
            from <= i && #[trigger] ids_at(s, i, j, k, l);
        let l1 = rfind(s, quote(), s.len() - 1).unwrap();
        assert(l <= l1);
        lemma_rfind(s, type_key(), l1 - tlen);
        let k1 = rfind(s, type_key(), l1 - tlen).unwrap();
        assert(k <= k1);
        lemma_rfind(s, quote(), k1 - 1);
        let j1 = rfind(s, quote(), k1 - 1).unwrap();
        assert(j <= j1);
        lemma_rfind(s, uuid_key(), j1 - ulen);
        let m = rfind(s, uuid_key(), j1 - ulen).unwrap();
        assert(i <= m);
    }
}

/// Whether the line holds a newline.
fn has_newline(line: &Vec<char>) -> (r: bool)
    ensures
        r == line@.contains('\n'),
{
    let mut i: usize = 0;
    while i < line.len()
        invariant
            i <= line.len(),
            forall|j: int| 0 <= j < i ==> line@[j] != '\n',
        decreases line.len() - i,
    {
        if line[i] == '\n' {
            return true;
        }
        i += 1;
    }
    false
}

/// The limit of the line, by four passes from the right.
fn limit_of(line: &Vec<char>, keys: &Keys) -> (r: Option<usize>)
    requires
        keys.wf(),
    ensures
        match r {
            Some(m) => ids_limit(line@) == Some(m as int),
            None => ids_limit(line@) is None,
        },
{
    if line.len() == 0 {
        return None;
    }
    let l = match rfind_upto(line, &keys.quote, line.len() - 1) {
        Some(l) => l,
        None => {
            return None;
        },
    };
    if l < keys.fs_type.len() {
        return None;
    }
    let k = match rfind_upto(line, &keys.fs_type, l - keys.fs_type.len()) {
        Some(k) => k,
        None => {
            return None;
        },
    };
    if k == 0 {
        return None;
    }
    let j = match rfind_upto(line, &keys.quote, k - 1) {
        Some(j) => j,
        None => {
            return None;
        },
    };
    if j < keys.uuid.len() {
        return None;
    }
    rfind_upto(line, &keys.uuid, j - keys.uuid.len())
}

/// The first index at or after `from` that holds no space.
fn after_spaces(line: &Vec<char>, from: usize) -> (r: usize)
    requires
        from <= line@.len(),
    ensures
        r == skip_spaces(line@, from as int),
        from <= r <= line@.len(),
        forall|j: int| from <= j < r ==> line@[j] == ' ',
{
    let mut i: usize = from;
    while i < line.len() && line[i] == ' '
        invariant
            from <= i <= line@.len(),
            skip_spaces(line@, from as int) == skip_spaces(line@, i as int),
            forall|j: int| from <= j < i ==> line@[j] == ' ',
        decreases line.len() - i,
    {
        i += 1;
    }
    i
}

/// Where the fields of an identity line stand, or `None` where the line is
/// none.
pub fn scan(line: &Vec<char>, keys: &Keys) -> (r: Option<Spans>)
    requires
        keys.wf(),
    ensures
        match r {
            Some(spans) => spans.fits(line@.len()) && parse_line(line@) == Some(
                spans.cut(line@),
            ),
            None => parse_line(line@) is None,
        },
{
    let ghost s = line@;
    let len: usize = line.len();
    if has_newline(line) {
        return None;
    }
    let limit = limit_of(line, keys);
    proof {
        lemma_last_split(s, s.len() - 1);
        assert forall|d: int| is_split(s, d) implies (match limit {
            Some(m) => d < m,
            None => false,
        }) by {
            lemma_ids_limit(s, d + 1);
        }
    }
    let m = match limit {
        Some(m) => m,
        None => {
            return None;
        },
    };
    if m == 0 {
        return None;
    }
    let c = match rfind_upto(line, &keys.colon, m - 1) {
        Some(c) => c,
        None => {
            proof {
                lemma_rfind(s, colon(), m - 1);
            }
            return None;
        },
    };
    proof {
        lemma_rfind(s, colon(), m - 1);
    }
    if c == 0 {
        return None;
    }
    proof {
        lemma_ids_limit(s, c + 1);
        assert(is_split(s, c as int));
        assert(last_split(s, s.len() - 1) == Some(c as int));
    }
    let at = after_spaces(line, c + 1);
    proof {
        // the limit holds the first character of a UUID, which is no space
        lemma_ids_limit(s, at as int);
        reveal_strlit("UUID=\"");
        assert(s.subrange(m as int, m + uuid_key().len())[0] == 'U');
        assert(at <= m);
    }
    let mut from: usize = at;
    let mut label: (usize, usize) = (0, 0);
    if stands_at(line, &keys.label, at) {
        let open: usize = at + keys.label.len();
        proof {
            lemma_find(s, quote(), open as int);
        }
        if let Some(q) = find_from(line, &keys.quote, open) {
            proof {
                lemma_ids_limit(s, q + 1);
            }
            if q < m {
                label = (open, q);
                from = q + 1;
            }
        }
    }
    proof {
        assert(label_end(s, at as int) == if from == at {
            None
        } else {
            Some(from - 1)
        });
        assert(s.subrange(0, 0) =~= Seq::<char>::empty());
        lemma_ids_first(s, from as int);
    }
    let i = match find_from(line, &keys.uuid, from) {
        Some(i) => i,
        None => {
            return None;
        },
    };
    let uuid_open: usize = i + keys.uuid.len();
    let j = match find_from(line, &keys.quote, uuid_open) {
        Some(j) => j,
        None => {
            return None;
        },
    };
    let k = match find_from(line, &keys.fs_type, j + 1) {
        Some(k) => k,
        None => {
            return None;
        },
    };
    let type_open: usize = k + keys.fs_type.len();
    let l = match find_from(line, &keys.quote, type_open) {
        Some(l) => l,
        None => {
            return None;
        },
    };
    let mut partuuid: (usize, usize) = (0, 0);
    if line[len - 1] == '"' {
        if let Some(p) = find_from(line, &keys.partuuid, l + 1) {
            let open: usize = p + keys.partuuid.len();
            if open < len {
                partuuid = (open, len - 1);
            }
        }
    }
    let spans = Spans {
        name: (0, c),
        label,
        uuid: (uuid_open, j),
        d_type: (type_open, l),
        partuuid,
    };
    proof {
        let f = fields_after(s, c as int);
        let g = spans.cut(s);
        assert(f.name =~= g.name);
        assert(f.label =~= g.label);
        assert(f.uuid =~= g.uuid);
        assert(f.d_type =~= g.d_type);
        assert(f.partuuid =~= g.partuuid);
    }
    Some(spans)
}

} // verus!
