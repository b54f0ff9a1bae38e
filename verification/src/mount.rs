//! Devices, as the identity utility and the mount table describe them: one
//! record for each identity line, stamped with whether the mount table names
//! its path, and the registry of all records of a listing.

use vstd::prelude::*;
use vstd::string::StringExecFns;
use crate::error::UtilsError;
use crate::identity::{lemma_path_is_not_empty, parse_line, Fields};
use crate::scan::{scan, Keys};
use crate::text::{
    has_at, lemma_has_at_inside, lemma_has_at_middle, lemma_lines_of_unlines,
    lemma_occurs_append, lines, occurs, split_lines, stands_at, string_of, to_chars, unlines,
};

pub use crate::block::{Block, Device};
pub use crate::size::{capacity, parse_capacity};

verus! {

/// One of `table`'s lines begins with `device`.
pub open spec fn listed(table: Seq<Seq<char>>, device: Seq<char>) -> bool {
    exists|n: int| 0 <= n < table.len() && has_at(#[trigger] table[n], device, 0)
}

/// The mount table `mounts` names `device`: one of its lines begins with
/// that path. The path is the first field of a line, so what follows it on
/// the line does not count.
pub open spec fn mounted(mounts: Seq<char>, device: Seq<char>) -> bool {
    listed(lines(mounts), device)
}

/// A mount table that was put together from lines names a device exactly
/// when one of those lines begins with it.
pub proof fn lemma_mounted_of_unlines(table: Seq<Seq<char>>, device: Seq<char>)
    requires
        table.len() > 0,
        forall|i: int| 0 <= i < table.len() ==> !(#[trigger] table[i]).contains('\n'),
    ensures
        mounted(unlines(table), device) == listed(table, device),
{
    lemma_lines_of_unlines(table);
}

/// Whether one of the lines begins with `device`.
fn is_listed(table: &Vec<Vec<char>>, device: &Vec<char>) -> (r: bool)
    ensures
        r == listed(table@.map_values(|l: Vec<char>| l@), device@),
{
    let ghost view = table@.map_values(|l: Vec<char>| l@);
    let mut n: usize = 0;
    while n < table.len()
        invariant
            n <= table.len(),
            view == table@.map_values(|l: Vec<char>| l@),
            forall|m: int| 0 <= m < n ==> !has_at(#[trigger] view[m], device@, 0),
        decreases table.len() - n,
    {
        if stands_at(&table[n], device, 0) {
            assert(has_at(view[n as int], device@, 0));
            return true;
        }
        n += 1;
    }
    false
}

/// Whether the mount table `mounts` names `device`.
pub fn check_mount(device: &str, mounts: &str) -> (r: bool)
    ensures
        r == mounted(mounts@, device@),
{
    let table = split_lines(mounts);
    let device = to_chars(device);
    is_listed(&table, &device)
}

/// A block device or partition, as the identity utility describes it.
#[derive(Debug)]
pub struct Blkid {
    /// The path of the device node.
    pub name: String,
    pub label: String,
    pub uuid: String,
    /// The type of the file system.
    pub d_type: String,
    pub partuuid: String,
    /// Whether the mount table named the path when the record was made.
    pub is_mount: bool,
}

/// What a record holds, as plain values.
pub struct BlkidView {
    pub name: Seq<char>,
    pub label: Seq<char>,
    pub uuid: Seq<char>,
    pub d_type: Seq<char>,
    pub partuuid: Seq<char>,
    pub is_mount: bool,
}

impl View for Blkid {
    type V = BlkidView;

    open spec fn view(&self) -> BlkidView {
        BlkidView {
            name: self.name@,
            label: self.label@,
            uuid: self.uuid@,
            d_type: self.d_type@,
            partuuid: self.partuuid@,
            is_mount: self.is_mount,
        }
    }
}

/// The record of the fields `f`, with the mount status `is_mount`.
pub open spec fn stamped(f: Fields, is_mount: bool) -> BlkidView {
    BlkidView {
        name: f.name,
        label: f.label,
        uuid: f.uuid,
        d_type: f.d_type,
        partuuid: f.partuuid,
        is_mount,
    }
}

/// The record that `line` gives when the mount table holds the lines
/// `table`; none where it is no identity line.
pub open spec fn record_in(line: Seq<char>, table: Seq<Seq<char>>) -> Option<BlkidView> {
    match parse_line(line) {
        Some(f) => Some(stamped(f, listed(table, f.name))),
        None => None,
    }
}

/// The record that `line` gives when the mount table is `mounts`.
pub open spec fn record_of(line: Seq<char>, mounts: Seq<char>) -> Option<BlkidView> {
    record_in(line, lines(mounts))
}

/// The records of the lines `ls` against the mount table `mounts`: the
/// record of each line that is an identity line, in the order of the lines.
pub open spec fn records_of(ls: Seq<Seq<char>>, mounts: Seq<char>) -> Seq<BlkidView> {
    ls.filter_map(|l: Seq<char>| record_of(l, mounts))
}

/// The registry of the listing `listing` against the mount table `mounts`:
/// the records of its lines.
pub open spec fn registry(listing: Seq<char>, mounts: Seq<char>) -> Seq<BlkidView> {
    records_of(lines(listing), mounts)
}

/// The record of a line, from its characters.
fn read_line(line: &Vec<char>, keys: &Keys, table: &Vec<Vec<char>>) -> (r: Option<Blkid>)
    requires
        keys.wf(),
    ensures
        match record_in(line@, table@.map_values(|l: Vec<char>| l@)) {
            Some(v) => r matches Some(b) && b@ == v,
            None => r is None,
        },
{
    match scan(line, keys) {
        Some(spans) => {
            let name_chars = copy_of(line, spans.name.0, spans.name.1);
            let is_mount = is_listed(table, &name_chars);
            Some(
                Blkid {
                    name: string_of(line, spans.name.0, spans.name.1),
                    label: string_of(line, spans.label.0, spans.label.1),
                    uuid: string_of(line, spans.uuid.0, spans.uuid.1),
                    d_type: string_of(line, spans.d_type.0, spans.d_type.1),
                    partuuid: string_of(line, spans.partuuid.0, spans.partuuid.1),
                    is_mount,
                },
            )
        },
        None => None,
    }
}

/// The characters of `s` from `start` up to `end`.
fn copy_of(s: &Vec<char>, start: usize, end: usize) -> (r: Vec<char>)
    requires
        start <= end <= s@.len(),
    ensures
        r@ == s@.subrange(start as int, end as int),
{
    let mut r: Vec<char> = Vec::new();
    let mut i: usize = start;
    while i < end
        invariant
            start <= i <= end <= s@.len(),
            r@ == s@.subrange(start as int, i as int),
        decreases end - i,
    {
        r.push(s[i]);
        assert(s@.subrange(start as int, i + 1) =~= s@.subrange(start as int, i as int).push(
            s@[i as int],
        ));
        i += 1;
    }
    r
}

/// How a mount status is written.
pub open spec fn flag_text(flag: bool) -> Seq<char> {
    if flag {
        "true"@
    } else {
        "false"@
    }
}

/// The row of a record: its fields in the order path, label, UUID, type,
/// partition UUID, mount status, a tab after each but the last, and a
/// newline.
pub open spec fn row(b: BlkidView) -> Seq<char> {
    b.name + "\t"@ + b.label + "\t"@ + b.uuid + "\t"@ + b.d_type + "\t"@ + b.partuuid + "\t"@
        + flag_text(b.is_mount) + "\n"@
}

/// The arguments of the mount call for a record and the directory `path`:
/// read-write, the type where it is `ntfs`, the device, the directory.
pub open spec fn mount_args_of(b: BlkidView, path: Seq<char>) -> Seq<Seq<char>> {
    let kind = if b.d_type == "ntfs"@ {
        seq!["-t"@, "ntfs"@]
    } else {
        Seq::empty()
    };
    seq!["-o"@, "rw"@] + kind + seq![b.name, path]
}

impl Blkid {
    /// A record has a path.
    pub open spec fn wf(&self) -> bool {
        self.name@.len() > 0
    }

    /// The record of the identity line `value`, stamped with whether the
    /// mount table `mounts` names its path; an error that carries the line
    /// where it is no identity line.
    pub fn new(value: &str, mounts: &str) -> (r: Result<Blkid, UtilsError>)
        ensures
            match record_of(value@, mounts@) {
                Some(v) => r matches Ok(b) && b@ == v,
                None => r matches Err(UtilsError::BlkidError(m)) && m@ == "no match: "@ + value@,
            },
            r matches Ok(b) ==> b.wf(),
    {
        proof {
            lemma_path_is_not_empty(value@);
        }
        let keys = Keys::new();
        let table = split_lines(mounts);
        let line = to_chars(value);
        match read_line(&line, &keys, &table) {
            Some(b) => Ok(b),
            None => {
                let mut m = String::from_str("no match: ");
                m.append(value);
                Err(UtilsError::BlkidError(m))
            },
        }
    }

    /// The row of the record.
    pub fn to_string(&self) -> (r: String)
        ensures
            r@ == row(self@),
    {
        let mut r = self.name.clone();
        r.append("\t");
        r.append(self.label.as_str());
        r.append("\t");
        r.append(self.uuid.as_str());
        r.append("\t");
        r.append(self.d_type.as_str());
        r.append("\t");
        r.append(self.partuuid.as_str());
        r.append("\t");
        r.append(if self.is_mount { "true" } else { "false" });
        r.append("\n");
        r
    }

    /// The arguments with which the mount utility mounts this device on
    /// the directory `path`.
    pub fn mount_args(&self, path: &str) -> (r: Vec<String>)
        ensures
            r@.map_values(|a: String| a@) == mount_args_of(self@, path@),
    {
        let mut r: Vec<String> = Vec::new();
        r.push(String::from_str("-o"));
        r.push(String::from_str("rw"));
        if self.d_type == String::from_str("ntfs") {
            r.push(String::from_str("-t"));
            r.push(String::from_str("ntfs"));
        }
        r.push(self.name.clone());
        r.push(String::from_str(path));
        assert(r@.map_values(|a: String| a@) =~= mount_args_of(self@, path@));
        r
    }

    /// The arguments with which the unmount utility unmounts the directory
    /// `path`: the directory alone.
    pub fn umount_args(&self, path: &str) -> (r: Vec<String>)
        ensures
            r@.map_values(|a: String| a@) == seq![path@],
    {
        let mut r: Vec<String> = Vec::new();
        r.push(String::from_str(path));
        assert(r@.map_values(|a: String| a@) =~= seq![path@]);
        r
    }

    /// The directory on which this device is mounted: its label under
    /// `/mnt`.
    pub fn mount_point(&self) -> (r: String)
        ensures
            r@ == "/mnt/"@ + self.label@,
    {
        let mut r = String::from_str("/mnt/");
        r.append(self.label.as_str());
        r
    }
}

/// Whether a record is offered for mounting: it has a label and was not
/// mounted when it was made.
pub open spec fn mountable(b: BlkidView) -> bool {
    !b.is_mount && b.label.len() > 0
}

/// The records among `records` that are offered for mounting, in their
/// order.
pub open spec fn offered(records: Seq<Blkid>) -> Seq<Blkid> {
    records.filter(|b: Blkid| mountable(b@))
}

/// Whether a record answers to `label`: it is offered for mounting and
/// `label` is its label.
pub open spec fn answers(b: BlkidView, label: Seq<char>) -> bool {
    mountable(b) && b.label == label
}

/// The first line of a table of records.
pub open spec fn header() -> Seq<char> {
    "Name     |Label    |UUID     |Type     |PartUUID |IsMount  |\n"@
}

/// The table of `records`: the header, then for each record, in order, its
/// row and an empty line.
pub open spec fn table(records: Seq<BlkidView>) -> Seq<char>
    decreases records.len(),
{
    if records.len() == 0 {
        header()
    } else {
        table(records.drop_last()) + row(records.last()) + "\n"@
    }
}

/// The records of a listing, in the order of its lines.
#[derive(Debug)]
pub struct BlkidList {
    pub blkids: Vec<Blkid>,
}

impl View for BlkidList {
    type V = Seq<BlkidView>;

    open spec fn view(&self) -> Seq<BlkidView> {
        self.blkids@.map_values(|b: Blkid| b@)
    }
}

impl BlkidList {
    /// Every record has a path.
    pub open spec fn wf(&self) -> bool {
        forall|i: int| 0 <= i < self.blkids@.len() ==> (#[trigger] self.blkids@[i]).wf()
    }

    /// The registry of the listing `output_str` against the mount table
    /// `mounts`: the record of each line that is an identity line, in the
    /// order of the lines. The other lines leave no trace.
    pub fn new(output_str: &str, mounts: &str) -> (r: BlkidList)
        ensures
            r@ == registry(output_str@, mounts@),
            r.wf(),
    {
        let keys = Keys::new();
        let table = split_lines(mounts);
        let rows = split_lines(output_str);
        let ghost f = |l: Seq<char>| record_of(l, mounts@);
        let ghost all = lines(output_str@);
        let mut blkids: Vec<Blkid> = Vec::new();
        let mut n: usize = 0;
        while n < rows.len()
            invariant
                n <= rows.len(),
                keys.wf(),
                all == rows@.map_values(|l: Vec<char>| l@),
                lines(mounts@) == table@.map_values(|l: Vec<char>| l@),
                f == |l: Seq<char>| record_of(l, mounts@),
                blkids@.map_values(|b: Blkid| b@) == all.take(n as int).filter_map(f),
                forall|i: int| 0 <= i < blkids@.len() ==> (#[trigger] blkids@[i]).wf(),
            decreases rows.len() - n,
        {
            proof {
                all.lemma_filter_map_take_succ(f, n as int);
                lemma_path_is_not_empty(all[n as int]);
            }
            let ghost before = blkids@;
            match read_line(&rows[n], &keys, &table) {
                Some(b) => {
                    blkids.push(b);
                    assert(blkids@.map_values(|b: Blkid| b@) =~= before.map_values(
                        |b: Blkid| b@,
                    ) + seq![b@]);
                },
                None => {},
            }
            n += 1;
        }
        assert(all.take(n as int) =~= all);
        BlkidList { blkids }
    }

    /// The records that are offered for mounting, in the order of the
    /// registry.
    pub fn get_label_device(&self) -> (r: Vec<&Blkid>)
        ensures
            r@.map_values(|b: &Blkid| *b) == offered(self.blkids@),
            forall|i: int| 0 <= i < r@.len() ==> mountable((#[trigger] r@[i])@),
    {
        let ghost p = |b: Blkid| mountable(b@);
        let mut r: Vec<&Blkid> = Vec::new();
        let mut n: usize = 0;
        while n < self.blkids.len()
            invariant
                n <= self.blkids.len(),
                p == |b: Blkid| mountable(b@),
                r@.map_values(|b: &Blkid| *b) == self.blkids@.take(n as int).filter(p),
                forall|i: int| 0 <= i < r@.len() ==> mountable((#[trigger] r@[i])@),
            decreases self.blkids.len() - n,
        {
            let item = &self.blkids[n];
            let ghost before = r@;
            proof {
                assert(self.blkids@.take(n + 1) =~= self.blkids@.take(n as int).push(*item));
                self.blkids@.take(n as int).lemma_filter_push(*item, p);
            }
            if !item.is_mount && !item.label.as_str().is_empty() {
                r.push(item);
                assert(r@.map_values(|b: &Blkid| *b) =~= before.map_values(|b: &Blkid| *b).push(
                    *item,
                ));
            }
            n += 1;
        }
        assert(self.blkids@.take(n as int) =~= self.blkids@);
        r
    }

    /// The first record that answers to `label`; `None` where none does,
    /// be it that no record has the label or that each one that has it was
    /// mounted.
    pub fn find_device(&self, label: &str) -> (r: Option<&Blkid>)
        ensures
            match r {
                Some(b) => exists|i: int|
                    0 <= i < self.blkids@.len() && *b == #[trigger] self.blkids@[i] && answers(
                        b@,
                        label@,
                    ) && forall|j: int| 0 <= j < i ==> !answers(self.blkids@[j]@, label@),
                None => forall|j: int|
                    0 <= j < self.blkids@.len() ==> !answers(self.blkids@[j]@, label@),
            },
            r matches Some(b) ==> !b.is_mount && b.label@ == label@ && label@.len() > 0,
    {
        let wanted = String::from_str(label);
        let mut n: usize = 0;
        while n < self.blkids.len()
            invariant
                n <= self.blkids.len(),
                wanted@ == label@,
                forall|j: int| 0 <= j < n ==> !answers(self.blkids@[j]@, label@),
            decreases self.blkids.len() - n,
        {
            let item = &self.blkids[n];
            if !item.label.as_str().is_empty() && item.label == wanted && !item.is_mount {
                return Some(item);
            }
            n += 1;
        }
        None
    }

    /// The table of all records, mounted ones too.
    pub fn to_string(&self) -> (r: String)
        ensures
            r@ == table(self@),
    {
        let mut r = String::from_str(
            "Name     |Label    |UUID     |Type     |PartUUID |IsMount  |\n",
        );
        let mut n: usize = 0;
        while n < self.blkids.len()
            invariant
                n <= self.blkids.len(),
                r@ == table(self@.take(n as int)),
            decreases self.blkids.len() - n,
        {
            let item = self.blkids[n].to_string();
            proof {
                assert(self@.take(n + 1).drop_last() =~= self@.take(n as int));
            }
            r.append(item.as_str());
            r.append("\n");
            n += 1;
        }
        assert(self@.take(n as int) =~= self@);
        r
    }
}

/// The records of `a + b` are those of `a`, then those of `b`.
pub proof fn lemma_records_add(a: Seq<Seq<char>>, b: Seq<Seq<char>>, mounts: Seq<char>)
    ensures
        records_of(a + b, mounts) == records_of(a, mounts) + records_of(b, mounts),
    decreases b.len(),
{
    let f = |l: Seq<char>| record_of(l, mounts);
    if b.len() == 0 {
        assert(a + b =~= a);
        assert(a.filter_map(f) + b.filter_map(f) =~= a.filter_map(f));
    } else {
        lemma_records_add(a, b.drop_last(), mounts);
        assert((a + b).drop_last() =~= a + b.drop_last());
        assert((a + b).last() == b.last());
        match f(b.last()) {
            Some(v) => {
                assert((a + b).filter_map(f) =~= a.filter_map(f) + b.filter_map(f));
            },
            None => {},
        }
    }
}

/// The registry of a listing that was put together from lines holds the
/// records of those lines.
pub proof fn lemma_registry_of_unlines(ls: Seq<Seq<char>>, mounts: Seq<char>)
    requires
        ls.len() > 0,
        forall|i: int| 0 <= i < ls.len() ==> !(#[trigger] ls[i]).contains('\n'),
    ensures
        registry(unlines(ls), mounts) == records_of(ls, mounts),
{
    lemma_lines_of_unlines(ls);
}

/// A line that is no identity line leaves no trace in the registry, and a
/// line that is one leaves its record between those of the lines before it
/// and those of the lines after it.
pub proof fn lemma_registry_by_line(
    before: Seq<Seq<char>>,
    line: Seq<char>,
    after: Seq<Seq<char>>,
    mounts: Seq<char>,
)
    ensures
        records_of(before + seq![line] + after, mounts) == records_of(before, mounts) + (
        match record_of(line, mounts) {
            Some(v) => seq![v],
            None => Seq::empty(),
        }) + records_of(after, mounts),
{
    let f = |l: Seq<char>| record_of(l, mounts);
    lemma_records_add(before + seq![line], after, mounts);
    lemma_records_add(before, seq![line], mounts);
    Seq::lemma_filter_map_singleton(line, f);
}

/// `part` is a part of `all` in the order of `all`: its records stand in
/// `all` at the places `at`, which rise.
pub open spec fn is_part_at(part: Seq<Blkid>, all: Seq<Blkid>, at: Seq<int>) -> bool {
    &&& at.len() == part.len()
    &&& forall|k: int|
        0 <= k < at.len() ==> 0 <= #[trigger] at[k] < all.len() && part[k] == all[at[k]]
    &&& forall|a: int, b: int| 0 <= a < b < at.len() ==> at[a] < at[b]
}

/// What is offered for mounting is a part of the registry in the order of
/// the registry, and each record of it has a label and was not mounted.
pub proof fn lemma_offered_in_order(records: Seq<Blkid>)
    ensures
        exists|at: Seq<int>| is_part_at(offered(records), records, at),
        forall|k: int|
            0 <= k < offered(records).len() ==> mountable((#[trigger] offered(records)[k])@),
    decreases records.len(),
{
    let p = |b: Blkid| mountable(b@);
    let offered = offered(records);
    reveal(Seq::filter);
    if records.len() == 0 {
        assert(is_part_at(offered, records, Seq::<int>::empty()));
    } else {
        let rest = records.drop_last();
        lemma_offered_in_order(rest);
        let sub = self::offered(rest);
        let at0 = choose|at: Seq<int>| is_part_at(sub, rest, at);
        let at = if p(records.last()) {
            at0.push(records.len() - 1)
        } else {
            at0
        };
        assert forall|k: int| 0 <= k < at.len() implies 0 <= #[trigger] at[k] < records.len()
            && offered[k] == records[at[k]] by {
            if k < at0.len() {
                assert(at[k] == at0[k]);
                assert(sub[k] == rest[at0[k]]);
            }
        }
        assert forall|a: int, b: int| 0 <= a < b < at.len() implies at[a] < at[b] by {
            if b < at0.len() {
                assert(at0[a] < at0[b]);
            } else {
                assert(at[a] == at0[a]);
            }
        }
        assert(is_part_at(offered, records, at));
        assert forall|k: int| 0 <= k < offered.len() implies mountable((#[trigger] offered[k])@) by {
            if k < sub.len() {
                assert(offered[k] == sub[k]);
            }
        }
    }
}

/// The row of a record holds each of its fields as it is.
pub proof fn lemma_row_holds_fields(b: BlkidView)
    ensures
        occurs(row(b), b.name),
        occurs(row(b), b.label),
        occurs(row(b), b.uuid),
        occurs(row(b), b.d_type),
        occurs(row(b), b.partuuid),
        occurs(row(b), flag_text(b.is_mount)),
{
    let tab = "\t"@;
    let r1 = b.name + tab;
    let r2 = r1 + b.label;
    let r3 = r2 + tab;
    let r4 = r3 + b.uuid;
    let r5 = r4 + tab;
    let r6 = r5 + b.d_type;
    let r7 = r6 + tab;
    let r8 = r7 + b.partuuid;
    let r9 = r8 + tab;
    let r10 = r9 + flag_text(b.is_mount);
    lemma_occurs_append(b.name, tab);
    lemma_occurs_append(r1, b.label);
    lemma_occurs_append(r2, tab);
    lemma_occurs_append(r3, b.uuid);
    lemma_occurs_append(r4, tab);
    lemma_occurs_append(r5, b.d_type);
    lemma_occurs_append(r6, tab);
    lemma_occurs_append(r7, b.partuuid);
    lemma_occurs_append(r8, tab);
    lemma_occurs_append(r9, flag_text(b.is_mount));
    lemma_occurs_append(r10, "\n"@);
}

/// The table of a registry holds the row of each of its records, and so
/// each field of each record as it is.
pub proof fn lemma_table_holds_rows(records: Seq<BlkidView>, n: int)
    requires
        0 <= n < records.len(),
    ensures
        occurs(table(records), row(records[n])),
        occurs(table(records), records[n].name),
        occurs(table(records), records[n].label),
        occurs(table(records), records[n].uuid),
        occurs(table(records), records[n].d_type),
        occurs(table(records), records[n].partuuid),
        occurs(table(records), flag_text(records[n].is_mount)),
    decreases records.len(),
{
    let rest = records.drop_last();
    let end = "\n"@;
    let e = Seq::<char>::empty();
    let t = table(records);
    let b = records[n];
    if n == records.len() - 1 {
        lemma_has_at_middle(table(rest), row(b), end);
    } else {
        lemma_table_holds_rows(rest, n);
        let at = choose|i: int| has_at(table(rest), row(b), i);
        assert(t =~= e + table(rest) + (row(records.last()) + end));
        lemma_has_at_inside(e, table(rest), row(records.last()) + end, row(b), at);
    }
    let at = choose|i: int| has_at(t, row(b), i);
    let head = t.subrange(0, at);
    let tail = t.subrange(at + row(b).len(), t.len() as int);
    assert(t =~= head + row(b) + tail);
    lemma_row_holds_fields(b);
    let i1 = choose|i: int| has_at(row(b), b.name, i);
    lemma_has_at_inside(head, row(b), tail, b.name, i1);
    let i2 = choose|i: int| has_at(row(b), b.label, i);
    lemma_has_at_inside(head, row(b), tail, b.label, i2);
    let i3 = choose|i: int| has_at(row(b), b.uuid, i);
    lemma_has_at_inside(head, row(b), tail, b.uuid, i3);
    let i4 = choose|i: int| has_at(row(b), b.d_type, i);
    lemma_has_at_inside(head, row(b), tail, b.d_type, i4);
    let i5 = choose|i: int| has_at(row(b), b.partuuid, i);
    lemma_has_at_inside(head, row(b), tail, b.partuuid, i5);
    let i6 = choose|i: int| has_at(row(b), flag_text(b.is_mount), i);
    lemma_has_at_inside(head, row(b), tail, flag_text(b.is_mount), i6);
}

} // verus!
