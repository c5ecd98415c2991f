//! The configuration that declares the aliases: one record per line,
//!
//! ```text
//! <alias> = <recurse> | <notify> | <root> [ | <add> [ | <def_ext> [ | <caption> ] ] ]
//! ```
//!
//! where lines that begin with `;` are comments.
use vstd::prelude::*;

use crate::filesystem::FilesystemError;
use crate::text::{chars_of, is_bool_true, split, split_chars, string_of, trim, trim_chars, truthy};

verus! {

/// One alias record: the 1-based line it stands on, the alias, the two
/// flags, the root, and the optional sub-path, default extension and
/// caption.
pub struct FsLtxEntry {
    pub line: usize,
    pub id: String,
    pub recurse: bool,
    pub notify: bool,
    pub root: String,
    pub add: Option<String>,
    pub def_ext: Option<String>,
    pub filter_caption: Option<String>,
}

/// An alias record with its texts as sequences.
pub struct LtxRecord {
    pub line: nat,
    pub id: Seq<char>,
    pub recurse: bool,
    pub notify: bool,
    pub root: Seq<char>,
    pub add: Option<Seq<char>>,
    pub def_ext: Option<Seq<char>>,
    pub filter_caption: Option<Seq<char>>,
}

/// The characters of an optional string.
pub open spec fn opt_view(s: Option<String>) -> Option<Seq<char>> {
    match s {
        Some(v) => Some(v@),
        None => None,
    }
}

impl View for FsLtxEntry {
    type V = LtxRecord;

    open spec fn view(&self) -> LtxRecord {
        LtxRecord {
            line: self.line as nat,
            id: self.id@,
            recurse: self.recurse,
            notify: self.notify,
            root: self.root@,
            add: opt_view(self.add),
            def_ext: opt_view(self.def_ext),
            filter_caption: opt_view(self.filter_caption),
        }
    }
}

/// The lines of `text` as `str::lines` gives them, but for a carriage
/// return before a line feed: it stays, and trimming drops it later.
pub open spec fn ltx_lines(text: Seq<char>) -> Seq<Seq<char>> {
    let pieces = split(text, '\n');
    if pieces.last().len() == 0 {
        pieces.drop_last()
    } else {
        pieces
    }
}

/// Whether a line is a comment.
pub open spec fn is_comment(line: Seq<char>) -> bool {
    line.len() > 0 && line[0] == ';'
}

/// The index of the first `=` of `line` from `i` on, or -1.
pub open spec fn first_eq(line: Seq<char>, i: int) -> int
    decreases line.len() - i,
{
    if i >= line.len() {
        -1
    } else if line[i] == '=' {
        i
    } else {
        first_eq(line, i + 1)
    }
}

/// The `|`-separated fields of `s`, each trimmed.
pub open spec fn ltx_values(s: Seq<char>) -> Seq<Seq<char>> {
    let pieces = split(trim(s), '|');
    Seq::new(pieces.len(), |i: int| trim(pieces[i]))
}

/// Field `i`, where there is one.
pub open spec fn field(values: Seq<Seq<char>>, i: int) -> Option<Seq<char>> {
    if i < values.len() {
        Some(values[i])
    } else {
        None
    }
}

/// The record on line `n`; `None` where the line lacks `=` or one of the
/// three required fields.
pub open spec fn parse_record(line: Seq<char>, n: nat) -> Option<LtxRecord> {
    let k = first_eq(line, 0);
    if k < 0 {
        None
    } else {
        let values = ltx_values(line.subrange(k + 1, line.len() as int));
        if values.len() < 3 {
            None
        } else {
            Some(
                LtxRecord {
                    line: n,
                    id: trim(line.subrange(0, k)),
                    recurse: truthy(values[0]),
                    notify: truthy(values[1]),
                    root: values[2],
                    add: field(values, 3),
                    def_ext: field(values, 4),
                    filter_caption: field(values, 5),
                },
            )
        }
    }
}

/// `done` followed by the records of `rest`, or the error of `rest`.
pub open spec fn prepend(done: Seq<LtxRecord>, rest: Result<Seq<LtxRecord>, nat>) -> Result<Seq<LtxRecord>, nat> {
    match rest {
        Ok(r) => Ok(done + r),
        Err(n) => Err(n),
    }
}

/// The records of the lines from index `i` on, or the 1-based number of
/// the first line that is neither a comment nor a record.
pub open spec fn parse_records(lines: Seq<Seq<char>>, i: nat) -> Result<Seq<LtxRecord>, nat>
    decreases lines.len() - i,
{
    if i >= lines.len() {
        Ok(Seq::empty())
    } else if is_comment(lines[i as int]) {
        parse_records(lines, i + 1)
    } else {
        match parse_record(lines[i as int], i + 1) {
            None => Err(i + 1),
            Some(rec) => prepend(seq![rec], parse_records(lines, i + 1)),
        }
    }
}

/// The records of the configuration text `text`.
pub open spec fn fs_ltx(text: Seq<char>) -> Result<Seq<LtxRecord>, nat> {
    parse_records(ltx_lines(text), 0)
}

/// The views of a list of records.
pub open spec fn record_views(v: Seq<FsLtxEntry>) -> Seq<LtxRecord> {
    Seq::new(v.len(), |i: int| v[i]@)
}

fn optional_field(values: &Vec<Vec<char>>, i: usize) -> (r: Option<String>)
    ensures
        match field(values@.map_values(|v: Vec<char>| v@), i as int) {
            Some(f) => r is Some && r->Some_0@ == f,
            None => r is None,
        },
{
    if i < values.len() {
        Some(string_of(values[i].as_slice()))
    } else {
        None
    }
}

/// Parses one line that is not a comment.
fn parse_line(line: &[char], n: usize) -> (r: Option<FsLtxEntry>)
    ensures
        match parse_record(line@, n as nat) {
            Some(rec) => r is Some && r->Some_0@ == rec,
            None => r is None,
        },
{
    let mut k: usize = 0;
    while k < line.len() && line[k] != '='
        invariant
            k <= line@.len(),
            first_eq(line@, k as int) == first_eq(line@, 0),
        decreases line@.len() - k,
    {
        k = k + 1;
    }
    if k == line.len() {
        return None;
    }
    let rest = vstd::slice::slice_subrange(line, k + 1, line.len());
    let pieces = split_chars(trim_chars(rest).as_slice(), '|');
    let ghost target = ltx_values(rest@);
    let mut values: Vec<Vec<char>> = Vec::new();
    let mut j: usize = 0;
    while j < pieces.len()
        invariant
            j <= pieces@.len(),
            target == ltx_values(rest@),
            target.len() == pieces@.len(),
            forall|m: int| 0 <= m < pieces@.len() ==> #[trigger] pieces@[m]@ == split(trim(rest@), '|')[m],
            values@.len() == j,
            forall|m: int| 0 <= m < j ==> #[trigger] values@[m]@ == target[m],
        decreases pieces@.len() - j,
    {
        assert(target[j as int] == trim(pieces@[j as int]@));
        values.push(trim_chars(pieces[j].as_slice()));
        j = j + 1;
    }
    assert(values@.map_values(|v: Vec<char>| v@) =~= target);
    if values.len() < 3 {
        return None;
    }
    let id = string_of(trim_chars(vstd::slice::slice_subrange(line, 0, k)).as_slice());
    Some(
        FsLtxEntry {
            line: n,
            id,
            recurse: is_bool_true(values[0].as_slice()),
            notify: is_bool_true(values[1].as_slice()),
            root: string_of(values[2].as_slice()),
            add: optional_field(&values, 3),
            def_ext: optional_field(&values, 4),
            filter_caption: optional_field(&values, 5),
        },
    )
}

/// Parses the configuration text `text` of the file `file_name`. The first
/// line that is neither a comment nor a record of at least three fields is
/// an error that names the file and that line.
pub fn parse_fs_ltx(text: &str, file_name: &str) -> (r: Result<Vec<FsLtxEntry>, FilesystemError>)
    requires
        ltx_lines(text@).len() < usize::MAX,
    ensures
        match r {
            Ok(v) => fs_ltx(text@) == Ok::<Seq<LtxRecord>, nat>(record_views(v@)),
            Err(FilesystemError::InvalidFsLtxSyntax { file_name: f, line }) => f@ == file_name@
                && fs_ltx(text@) == Err::<Seq<LtxRecord>, nat>(line as nat),
            Err(_) => false,
        },
{
    let pieces = split_chars(chars_of(text).as_slice(), '\n');
    let ghost lines = ltx_lines(text@);
    let count = if pieces[pieces.len() - 1].len() == 0 {
        pieces.len() - 1
    } else {
        pieces.len()
    };
    assert(lines.len() == count);
    let mut entries: Vec<FsLtxEntry> = Vec::new();
    let mut i: usize = 0;
    while i < count
        invariant
            i <= count == lines.len() < usize::MAX,
            count <= pieces@.len(),
            lines == ltx_lines(text@),
            forall|m: int| 0 <= m < count ==> #[trigger] pieces@[m]@ == lines[m],
            fs_ltx(text@) == prepend(record_views(entries@), parse_records(lines, i as nat)),
        decreases count - i,
    {
        let line = pieces[i].as_slice();
        if line.len() > 0 && line[0] == ';' {
        } else {
            match parse_line(line, i + 1) {
                None => {
                    return Err(FilesystemError::InvalidFsLtxSyntax { file_name: string_of(chars_of(file_name).as_slice()), line: i + 1 });
                },
                Some(e) => {
                    proof {
                        let rest = parse_records(lines, (i + 1) as nat);
                        assert(record_views(entries@.push(e)) =~= record_views(entries@).push(e@));
                        match rest {
                            Ok(x) => {
                                assert(record_views(entries@) + (seq![e@] + x) =~= record_views(entries@).push(e@) + x);
                            },
                            Err(_) => {},
                        }
                    }
                    entries.push(e);
                },
            }
        }
        i = i + 1;
    }
    assert(record_views(entries@) + Seq::<LtxRecord>::empty() =~= record_views(entries@));
    Ok(entries)
}

} // verus!
