//! Snapshots of a directory tree and their comparison.

use vstd::prelude::*;

use vstd::std_specs::cmp::PartialEqSpec;

use crate::text::{
    decimal, lemma_decimal_single_line, lemma_line_feeds_append, lemma_repeat_single_line,
    lemma_single_line, line_feeds, push_decimal, push_repeated, repeat_char, single_line,
};

verus! {

/// An entry of a snapshot: a file with its size in bytes, or a directory
/// with the entries it holds.
#[derive(Debug)]
pub enum DirEntryFiles {
    File(String, u64),
    Dir { name: String, files: Vec<DirEntryFiles> },
}

/// Two entries are of the same kind: both files or both directories.
pub open spec fn same_kind(a: DirEntryFiles, b: DirEntryFiles) -> bool {
    (a is File && b is File) || (a is Dir && b is Dir)
}

/// The name of an entry.
pub open spec fn entry_name(e: DirEntryFiles) -> Seq<char> {
    match e {
        DirEntryFiles::File(name, _) => name@,
        DirEntryFiles::Dir { name, .. } => name@,
    }
}

/// The entries that a directory holds; a file holds none.
pub open spec fn children(e: DirEntryFiles) -> Seq<DirEntryFiles> {
    match e {
        DirEntryFiles::File(..) => seq![],
        DirEntryFiles::Dir { files, .. } => files@,
    }
}

/// Two entries stand for the same thing: same kind and same name.
pub open spec fn files_match(a: DirEntryFiles, b: DirEntryFiles) -> bool {
    same_kind(a, b) && entry_name(a) == entry_name(b)
}

/// The position of the first entry of `list`, from position `i` on, that
/// matches `f`.
pub open spec fn find_from(list: Seq<DirEntryFiles>, f: DirEntryFiles, i: int) -> Option<int>
    decreases list.len() - i,
{
    if i < 0 || i >= list.len() {
        None
    } else if files_match(list[i], f) {
        Some(i)
    } else {
        find_from(list, f, i + 1)
    }
}

/// The position of the first entry of `list` that matches `f`.
pub open spec fn find_match(list: Seq<DirEntryFiles>, f: DirEntryFiles) -> Option<int> {
    find_from(list, f, 0)
}

/// `a` and `b` are the same tree: of the same kind, with the same name, the
/// same size for a file, and, for a directory, the same entries in order.
pub open spec fn same_entry(a: DirEntryFiles, b: DirEntryFiles) -> bool
    decreases a,
{
    match a {
        DirEntryFiles::File(name, size) => b == DirEntryFiles::File(name, size),
        DirEntryFiles::Dir { name, files } => b is Dir && entry_name(b) == name@ && same_entries(
            files@,
            children(b),
        ),
    }
}

/// `xs` and `ys` are the same trees, in the same order.
pub open spec fn same_entries(xs: Seq<DirEntryFiles>, ys: Seq<DirEntryFiles>) -> bool
    decreases xs,
{
    if xs.len() == 0 {
        ys.len() == 0
    } else {
        ys.len() == xs.len() && same_entries(xs.drop_last(), ys.drop_last()) && same_entry(
            xs.last(),
            ys.last(),
        )
    }
}

impl Clone for DirEntryFiles {
    /// A copy of the whole tree.
    fn clone(&self) -> (c: Self)
        ensures
            same_entry(*self, c),
    {
        self.copy_tree()
    }
}

impl DirEntryFiles {
    /// A copy of the whole tree.
    fn copy_tree(&self) -> (c: Self)
        ensures
            same_entry(*self, c),
        decreases *self,
    {
        match self {
            DirEntryFiles::File(name, size) => DirEntryFiles::File(name.clone(), *size),
            DirEntryFiles::Dir { name, files } => {
                let mut copies: Vec<DirEntryFiles> = Vec::new();
                let len = files.len();
                assert(files@.take(0) =~= Seq::<DirEntryFiles>::empty());
                for i in 0..len
                    invariant
                        len == files@.len(),
                        *self == (DirEntryFiles::Dir { name: *name, files: *files }),
                        same_entries(files@.take(i as int), copies@),
                        // the unfolded depth of `*self` names its entries, for termination
                        depth(*self) == 1 + max_depth(files@),
                {
                    let entry = &files[i];
                    proof {
                        assert(decreases_to!(*self => *entry));
                    }
                    let copy = entry.copy_tree();
                    let ghost before = copies@;
                    copies.push(copy);
                    assert(files@.take(i + 1).drop_last() =~= files@.take(i as int));
                    assert(copies@.drop_last() =~= before);
                }
                assert(files@.take(len as int) =~= files@);
                DirEntryFiles::Dir { name: name.clone(), files: copies }
            },
        }
    }
}

impl PartialEq for DirEntryFiles {
    fn eq(&self, other: &Self) -> (r: bool) {
        match self {
            DirEntryFiles::Dir { .. } => match other {
                DirEntryFiles::Dir { .. } => true,
                _ => false,
            },
            DirEntryFiles::File(..) => match other {
                DirEntryFiles::File(..) => true,
                _ => false,
            },
        }
    }
}

impl vstd::std_specs::cmp::PartialEqSpecImpl for DirEntryFiles {
    open spec fn obeys_eq_spec() -> bool {
        true
    }

    open spec fn eq_spec(&self, other: &Self) -> bool {
        same_kind(*self, *other)
    }
}

impl DirEntryFiles {
    /// An unnamed, empty directory.
    pub fn new() -> (d: Self)
        ensures
            d is Dir,
            entry_name(d) == Seq::<char>::empty(),
            children(d) == Seq::<DirEntryFiles>::empty(),
    {
        DirEntryFiles::Dir { name: String::new(), files: Vec::new() }
    }

    /// An empty directory called `dir_name`.
    pub fn new_dir(dir_name: String) -> (d: DirEntryFiles)
        ensures
            d is Dir,
            entry_name(d) == dir_name@,
            children(d) == Seq::<DirEntryFiles>::empty(),
    {
        DirEntryFiles::Dir { name: dir_name, files: Vec::new() }
    }

    /// A file called `file_name` of `file_size` bytes.
    pub fn new_file(file_name: String, file_size: u64) -> (f: DirEntryFiles)
        ensures
            f == DirEntryFiles::File(file_name, file_size),
    {
        DirEntryFiles::File(file_name, file_size)
    }

    /// Adds a file, given by its name and size, at the end of a directory;
    /// a file is left as it is.
    pub fn add_file_to_dir(&mut self, file_metadata: (String, u64))
        ensures
            *old(self) is File ==> *final(self) == *old(self),
            *old(self) is Dir ==> {
                &&& *final(self) is Dir
                &&& entry_name(*final(self)) == entry_name(*old(self))
                &&& children(*final(self)) == children(*old(self)).push(
                    DirEntryFiles::File(file_metadata.0, file_metadata.1),
                )
            },
    {
        match self {
            DirEntryFiles::File(_, _) => {},
            DirEntryFiles::Dir { name, files } => {
                files.push(DirEntryFiles::File(file_metadata.0, file_metadata.1));
            },
        }
    }

    /// Adds an entry at the end of a directory; a file is left as it is.
    pub fn add_dir_to_dir(&mut self, dir: DirEntryFiles)
        ensures
            *old(self) is File ==> *final(self) == *old(self),
            *old(self) is Dir ==> {
                &&& *final(self) is Dir
                &&& entry_name(*final(self)) == entry_name(*old(self))
                &&& children(*final(self)) == children(*old(self)).push(dir)
            },
    {
        match self {
            DirEntryFiles::File(_, _) => {},
            DirEntryFiles::Dir { name, files } => {
                files.push(dir);
            },
        }
    }
}

/// Tells whether two snapshots are of the same root: both directories, with
/// the same name.
pub fn compare_root_dirs(snaps: (&DirEntryFiles, &DirEntryFiles)) -> (r: bool)
    ensures
        r == (snaps.0 is Dir && snaps.1 is Dir && entry_name(*snaps.0) == entry_name(*snaps.1)),
{
    if let DirEntryFiles::Dir { name, files } = snaps.0 {
        if let DirEntryFiles::Dir { name: subname, files: subfiles } = snaps.1 {
            if *name == *subname {
                return true;
            }
        }
    }
    false
}

/// Tells whether two entries stand for the same thing: both files or both
/// directories, with the same name. Sizes and contents are not compared.
pub fn compare_files(file1: &DirEntryFiles, file2: &DirEntryFiles) -> (r: bool)
    ensures
        r == files_match(*file1, *file2),
{
    if *file1 == *file2 {
        if let DirEntryFiles::Dir { name, files } = file1 {
            if let DirEntryFiles::Dir { name: sub_name, files: sub_files } = file2 {
                if *name == *sub_name {
                    return true;
                } else {
                    return false;
                }
            }
        }
        if let DirEntryFiles::File(file_name, file_size) = file1 {
            if let DirEntryFiles::File(file_name_s, file_size_s) = file2 {
                if *file_name == *file_name_s {
                    return true
                } else {
                    return false;
                }
            }
        }
    }
    false
}

/// The first entry of `list_with_files` that stands for the same thing as
/// `file`, if there is one.
pub fn search_match<'a>(list_with_files: &'a Vec<DirEntryFiles>, file: &DirEntryFiles) -> (r:
    Option<&'a DirEntryFiles>)
    ensures
        r is Some == find_match(list_with_files@, *file) is Some,
        r matches Some(found) ==> *found == list_with_files@[find_match(
            list_with_files@,
            *file,
        )->0],
{
    let len = list_with_files.len();
    for i in 0..len
        invariant
            len == list_with_files@.len(),
            find_match(list_with_files@, *file) == find_from(list_with_files@, *file, i as int),
    {
        if compare_files(&list_with_files[i], file) {
            return Some(&list_with_files[i]);
        }
    }
    None
}

/// ` Bytes`
pub open spec fn bytes_word() -> Seq<char> {
    seq![' ', 'B', 'y', 't', 'e', 's']
}

/// ` -> `
pub open spec fn arrow_word() -> Seq<char> {
    seq![' ', '-', '>', ' ']
}

/// ` new`
pub open spec fn new_word() -> Seq<char> {
    seq![' ', 'n', 'e', 'w']
}

/// ` deleted`
pub open spec fn deleted_word() -> Seq<char> {
    seq![' ', 'd', 'e', 'l', 'e', 't', 'e', 'd']
}

/// The start of a report line for `e`: `t0` spaces, a `|` for a directory,
/// `t1` dashes and the name.
pub open spec fn line_head(t0: nat, t1: nat, e: DirEntryFiles) -> Seq<char> {
    if e is Dir {
        repeat_char(' ', t0) + seq!['|'] + repeat_char('-', t1) + entry_name(e)
    } else {
        repeat_char(' ', t0) + repeat_char('-', t1) + entry_name(e)
    }
}

/// The size of a file of `size` bytes against its counterpart `other`: the
/// size, then, where `other` is a file of another size, an arrow and that
/// size; nothing where `other` is a directory.
pub open spec fn size_text(size: u64, other: DirEntryFiles) -> Seq<char> {
    match other {
        DirEntryFiles::File(_, other_size) => if size == other_size {
            decimal(size as nat) + bytes_word()
        } else {
            decimal(size as nat) + bytes_word() + arrow_word() + decimal(other_size as nat)
                + bytes_word()
        },
        DirEntryFiles::Dir { .. } => seq![],
    }
}

/// The report line of `e`, found again as `other` in the second snapshot.
pub open spec fn mod_line(t0: nat, t1: nat, e: DirEntryFiles, other: DirEntryFiles) -> Seq<char> {
    match e {
        DirEntryFiles::File(_, size) => line_head(t0, t1, e) + seq![' '] + size_text(size, other)
            + seq!['\n'],
        DirEntryFiles::Dir { .. } => line_head(t0, t1, e) + seq!['\n'],
    }
}

/// The report line of `e`, which is new in the second snapshot.
pub open spec fn new_line(t0: nat, t1: nat, e: DirEntryFiles) -> Seq<char> {
    line_head(t0, t1, e) + new_word() + seq!['\n']
}

/// The report line of `e`, which the second snapshot lacks.
pub open spec fn deleted_line(t0: nat, t1: nat, e: DirEntryFiles) -> Seq<char> {
    line_head(t0, t1, e) + deleted_word() + seq!['\n']
}

/// Appends the start of the report line for `e` to `line`.
fn push_line_head(line: &mut String, tabs: (usize, usize), e: &DirEntryFiles)
    ensures
        final(line)@ == old(line)@ + line_head(tabs.0 as nat, tabs.1 as nat, *e),
{
    proof {
        reveal_strlit(" ");
        reveal_strlit("|");
        reveal_strlit("-");
    }
    match e {
        DirEntryFiles::Dir { name, files } => {
            push_repeated(line, " ", tabs.0);
            line.append("|");
            push_repeated(line, "-", tabs.1);
            line.append(name.as_str());
        },
        DirEntryFiles::File(file_name, file_size) => {
            push_repeated(line, " ", tabs.0);
            push_repeated(line, "-", tabs.1);
            line.append(file_name.as_str());
        },
    }
    assert(line@ =~= old(line)@ + line_head(tabs.0 as nat, tabs.1 as nat, *e));
}

/// Appends to `output` the report line of `files.0`, found again as
/// `files.1`: for a file, its size, and the size of `files.1` where that is
/// a file of another size.
pub fn add_output_line_mod(
    output: &mut String,
    tabs: (usize, usize),
    files: (&DirEntryFiles, &DirEntryFiles),
)
    ensures
        final(output)@ == old(output)@ + mod_line(tabs.0 as nat, tabs.1 as nat, *files.0, *files.1),
{
    proof {
        reveal_strlit(" ");
        reveal_strlit(" Bytes");
        reveal_strlit(" -> ");
        reveal_strlit("\n");
    }
    let mut line = String::new();
    push_line_head(&mut line, tabs, files.0);
    match files.0 {
        DirEntryFiles::Dir { name, files } => {},
        DirEntryFiles::File(file_name, file_size) => {
            line.append(" ");
            if let DirEntryFiles::File(file_name_sub, file_size_sub) = files.1 {
                if *file_size == *file_size_sub {
                    push_decimal(&mut line, *file_size);
                    line.append(" Bytes");
                } else {
                    push_decimal(&mut line, *file_size);
                    line.append(" Bytes");
                    line.append(" -> ");
                    push_decimal(&mut line, *file_size_sub);
                    line.append(" Bytes");
                }
            }
        },
    }
    line.append("\n");
    assert(line@ =~= mod_line(tabs.0 as nat, tabs.1 as nat, *files.0, *files.1));
    output.append(line.as_str());
}

/// Appends to `output` the report line of `file` as new.
pub fn add_output_line_new(output: &mut String, tabs: (usize, usize), file: &DirEntryFiles)
    ensures
        final(output)@ == old(output)@ + new_line(tabs.0 as nat, tabs.1 as nat, *file),
{
    proof {
        reveal_strlit(" new");
        reveal_strlit("\n");
    }
    let mut line = String::new();
    push_line_head(&mut line, tabs, file);
    line.append(" new");
    line.append("\n");
    assert(line@ =~= new_line(tabs.0 as nat, tabs.1 as nat, *file));
    output.append(line.as_str());
}

/// Appends to `output` the report line of `file` as deleted.
pub fn add_output_line_deleted(output: &mut String, tabs: (usize, usize), file: &DirEntryFiles)
    ensures
        final(output)@ == old(output)@ + deleted_line(tabs.0 as nat, tabs.1 as nat, *file),
{
    proof {
        reveal_strlit(" deleted");
        reveal_strlit("\n");
    }
    let mut line = String::new();
    push_line_head(&mut line, tabs, file);
    line.append(" deleted");
    line.append("\n");
    assert(line@ =~= deleted_line(tabs.0 as nat, tabs.1 as nat, *file));
    output.append(line.as_str());
}

/// Appends the name of the root directory `dir`, and a line break, to
/// `output`; a file adds nothing.
pub fn add_root_dir(output: &mut String, dir: &DirEntryFiles)
    ensures
        *dir is Dir ==> final(output)@ == old(output)@ + entry_name(*dir) + seq!['\n'],
        *dir is File ==> final(output)@ == old(output)@,
{
    proof {
        reveal_strlit("\n");
    }
    if let DirEntryFiles::Dir { name, files } = dir {
        output.append(name.as_str());
        output.append("\n");
    }
}

/// One line of a comparison report: an entry of the first snapshot, at the
/// indentation `t0`, `t1`, with the entry of the second snapshot that it was
/// found as, or `None` where the second snapshot lacks it.
pub struct DiffLine {
    pub t0: int,
    pub t1: int,
    pub entry: DirEntryFiles,
    pub counterpart: Option<DirEntryFiles>,
}

/// The lines of the comparison of the entries held by `a` against `others`,
/// the entries held by its counterpart: each entry in order, followed by the
/// comparison of what it holds, three steps further in.
pub open spec fn diff_lines(a: DirEntryFiles, others: Seq<DirEntryFiles>, t0: int, t1: int) -> Seq<
    DiffLine,
>
    decreases a,
{
    match a {
        DirEntryFiles::File(..) => seq![],
        DirEntryFiles::Dir { files, .. } => diff_children(files@, others, t0, t1),
    }
}

/// The lines of the comparison of the entries `kids` against `others`.
pub open spec fn diff_children(
    kids: Seq<DirEntryFiles>,
    others: Seq<DirEntryFiles>,
    t0: int,
    t1: int,
) -> Seq<DiffLine>
    decreases kids,
{
    if kids.len() == 0 {
        seq![]
    } else {
        let f = kids.last();
        let found = find_match(others, f);
        let line = DiffLine {
            t0,
            t1,
            entry: f,
            counterpart: match found {
                Some(i) => Some(others[i]),
                None => None,
            },
        };
        let inner = match found {
            Some(i) => children(others[i]),
            None => seq![],
        };
        diff_children(kids.drop_last(), others, t0, t1).push(line) + diff_lines(
            f,
            inner,
            t0 + 3,
            t1 + 3,
        )
    }
}

/// The text of one report line.
pub open spec fn render_line(l: DiffLine) -> Seq<char> {
    match l.counterpart {
        Some(other) => mod_line(l.t0 as nat, l.t1 as nat, l.entry, other),
        None => deleted_line(l.t0 as nat, l.t1 as nat, l.entry),
    }
}

/// The text of a report: its lines one after another.
pub open spec fn render(lines: Seq<DiffLine>) -> Seq<char>
    decreases lines.len(),
{
    if lines.len() == 0 {
        seq![]
    } else {
        render(lines.drop_last()) + render_line(lines.last())
    }
}

/// How deeply directories nest in `e`: none for a file, one more than the
/// deepest entry for a directory.
pub open spec fn depth(e: DirEntryFiles) -> nat
    decreases e,
{
    match e {
        DirEntryFiles::File(..) => 0,
        DirEntryFiles::Dir { files, .. } => 1 + max_depth(files@),
    }
}

/// The greatest depth among `kids`.
pub open spec fn max_depth(kids: Seq<DirEntryFiles>) -> nat
    decreases kids,
{
    if kids.len() == 0 {
        0
    } else {
        let d = depth(kids.last());
        let r = max_depth(kids.drop_last());
        if d > r {
            d
        } else {
            r
        }
    }
}

proof fn lemma_max_depth(kids: Seq<DirEntryFiles>, i: int)
    requires
        0 <= i < kids.len(),
    ensures
        depth(kids[i]) <= max_depth(kids),
    decreases kids.len(),
{
    if i < kids.len() - 1 {
        lemma_max_depth(kids.drop_last(), i);
    }
}

proof fn lemma_render_append(x: Seq<DiffLine>, y: Seq<DiffLine>)
    ensures
        render(x + y) == render(x) + render(y),
    decreases y.len(),
{
    if y.len() == 0 {
        assert(x + y =~= x);
    } else {
        lemma_render_append(x, y.drop_last());
        assert((x + y).drop_last() =~= x + y.drop_last());
    }
}

/// Appends to `output` the comparison of what `snaps.0` holds against what
/// `snaps.1` holds: a line for each entry of the first, marked deleted where
/// the second has no entry of its kind and name, and for each directory the
/// comparison of its own entries, indented three steps further.
pub fn compare_snaps(
    snaps: (&DirEntryFiles, &DirEntryFiles),
    tabs: (usize, usize),
    output: &mut String,
)
    requires
        tabs.0 + 3 * depth(*snaps.0) <= usize::MAX + 3,
        tabs.1 + 3 * depth(*snaps.0) <= usize::MAX + 3,
    ensures
        final(output)@ == old(output)@ + render(
            diff_lines(*snaps.0, children(*snaps.1), tabs.0 as int, tabs.1 as int),
        ),
    decreases *snaps.0,
{
    let empty: Vec<DirEntryFiles> = Vec::new();
    let snap2_list: &Vec<DirEntryFiles> = match snaps.1 {
        DirEntryFiles::Dir { name, files } => files,
        DirEntryFiles::File(..) => &empty,
    };
    assert(snap2_list@ == children(*snaps.1));
    let ghost others = snap2_list@;
    let ghost t0 = tabs.0 as int;
    let ghost t1 = tabs.1 as int;
    match snaps.0 {
        DirEntryFiles::File(..) => {},
        DirEntryFiles::Dir { name, files } => {
            let len = files.len();
            assert(files@.take(0) =~= Seq::<DirEntryFiles>::empty());
            for i in 0..len
                invariant
                    len == files@.len(),
                    others == snap2_list@,
                    *snaps.0 == (DirEntryFiles::Dir { name: *name, files: *files }),
                    tabs.0 + 3 * depth(*snaps.0) <= usize::MAX + 3,
                    tabs.1 + 3 * depth(*snaps.0) <= usize::MAX + 3,
                    t0 == tabs.0,
                    t1 == tabs.1,
                    output@ == old(output)@ + render(
                        diff_children(files@.take(i as int), others, t0, t1),
                    ),
            {
                let file = &files[i];
                let ghost before = output@;
                let ghost prefix = diff_children(files@.take(i as int), others, t0, t1);
                proof {
                    lemma_max_depth(files@, i as int);
                    assert(files@.take(i + 1).drop_last() =~= files@.take(i as int));
                    assert(files@.take(i + 1).last() == files@[i as int]);
                }
                let found = search_match(snap2_list, file);
                let ghost line = DiffLine {
                    t0,
                    t1,
                    entry: *file,
                    counterpart: match find_match(others, *file) {
                        Some(k) => Some(others[k]),
                        None => None,
                    },
                };
                let ghost inner = match find_match(others, *file) {
                    Some(k) => children(others[k]),
                    None => seq![],
                };
                assert(diff_children(files@.take(i + 1), others, t0, t1) == prefix.push(line)
                    + diff_lines(*file, inner, t0 + 3, t1 + 3));
                if let DirEntryFiles::File(f_name, f_size) = file {
                    match found {
                        Some(file_dup) => {
                            add_output_line_mod(output, tabs, (file, file_dup));
                        },
                        None => {
                            add_output_line_deleted(output, tabs, file);
                        },
                    }
                    assert(diff_lines(*file, inner, t0 + 3, t1 + 3) =~= seq![]);
                } else {
                    assert(decreases_to!(*snaps.0 => *file));
                    match found {
                        Some(file_dup) => {
                            add_output_line_mod(output, tabs, (file, file_dup));
                            compare_snaps((file, file_dup), (tabs.0 + 3, tabs.1 + 3), output);
                        },
                        None => {
                            add_output_line_deleted(output, tabs, file);
                            compare_snaps(
                                (file, &DirEntryFiles::new()),
                                (tabs.0 + 3, tabs.1 + 3),
                                output,
                            );
                        },
                    }
                }
                proof {
                    lemma_render_append(prefix.push(line), diff_lines(*file, inner, t0 + 3, t1 + 3));
                    assert(prefix.push(line).drop_last() =~= prefix);
                }
            }
            assert(files@.take(len as int) =~= files@);
        },
    }
}

/// The start of a line of the tree listing: `spaces` spaces, a `|` and
/// `sticks` dashes.
pub open spec fn tree_head(spaces: int, sticks: int) -> Seq<char> {
    repeat_char(' ', spaces as nat) + seq!['|'] + repeat_char('-', sticks as nat)
}

/// The tree listing of `e`: a line for `e` (a file with its size), then,
/// for a directory, the listing of each entry it holds, `sticks` columns
/// further in and with three dashes more.
pub open spec fn tree_text(e: DirEntryFiles, spaces: int, sticks: int) -> Seq<char>
    decreases e,
{
    match e {
        DirEntryFiles::File(name, size) => tree_head(spaces, sticks) + name@ + seq![' '] + decimal(
            size as nat,
        ) + seq!['\n'],
        DirEntryFiles::Dir { name, files } => tree_head(spaces, sticks) + name@ + seq!['\n']
            + forest_text(files@, spaces + sticks, sticks + 3),
    }
}

/// The tree listings of `kids`, one after another.
pub open spec fn forest_text(kids: Seq<DirEntryFiles>, spaces: int, sticks: int) -> Seq<char>
    decreases kids,
{
    if kids.len() == 0 {
        seq![]
    } else {
        forest_text(kids.drop_last(), spaces, sticks) + tree_text(kids.last(), spaces, sticks)
    }
}

/// The indentation of every line of the tree listing of `e` fits in a
/// `usize`: wherever a directory holds entries, `spaces + sticks` and
/// `sticks + 3` do.
pub open spec fn tree_fits(e: DirEntryFiles, spaces: int, sticks: int) -> bool
    decreases e,
{
    match e {
        DirEntryFiles::File(..) => true,
        DirEntryFiles::Dir { files, .. } => files.len() == 0 || (spaces + sticks <= usize::MAX
            && sticks + 3 <= usize::MAX && forest_fits(files@, spaces + sticks, sticks + 3)),
    }
}

/// [`tree_fits`] of each of `kids`.
pub open spec fn forest_fits(kids: Seq<DirEntryFiles>, spaces: int, sticks: int) -> bool
    decreases kids,
{
    if kids.len() == 0 {
        true
    } else {
        forest_fits(kids.drop_last(), spaces, sticks) && tree_fits(kids.last(), spaces, sticks)
    }
}

proof fn lemma_forest_fits(kids: Seq<DirEntryFiles>, spaces: int, sticks: int, i: int)
    requires
        forest_fits(kids, spaces, sticks),
        0 <= i < kids.len(),
    ensures
        tree_fits(kids[i], spaces, sticks),
    decreases kids.len(),
{
    if i < kids.len() - 1 {
        lemma_forest_fits(kids.drop_last(), spaces, sticks, i);
    }
}

impl DirEntryFiles {
    /// Appends the tree listing of this entry to `output`: a line of
    /// `spaces` spaces, `|`, `sticks` dashes and the name (for a file, then
    /// a space and its size), then for a directory the listing of each entry
    /// it holds, `sticks` columns further in and with three dashes more.
    pub fn debug_files(&self, spaces: usize, sticks: usize, output: &mut String)
        requires
            tree_fits(*self, spaces as int, sticks as int),
        ensures
            final(output)@ == old(output)@ + tree_text(*self, spaces as int, sticks as int),
        decreases *self,
    {
        proof {
            reveal_strlit(" ");
            reveal_strlit("|");
            reveal_strlit("-");
            reveal_strlit("\n");
        }
        match self {
            DirEntryFiles::File(name, size) => {
                push_repeated(output, " ", spaces);
                output.append("|");
                push_repeated(output, "-", sticks);
                output.append(name.as_str());
                output.append(" ");
                push_decimal(output, *size);
                output.append("\n");
                assert(output@ =~= old(output)@ + tree_text(*self, spaces as int, sticks as int));
            },
            DirEntryFiles::Dir { name, files } => {
                push_repeated(output, " ", spaces);
                output.append("|");
                push_repeated(output, "-", sticks);
                output.append(name.as_str());
                output.append("\n");
                let ghost head = output@;
                assert(head =~= old(output)@ + tree_head(spaces as int, sticks as int) + name@
                    + seq!['\n']);
                let len = files.len();
                assert(files@.take(0) =~= Seq::<DirEntryFiles>::empty());
                for i in 0..len
                    invariant
                        len == files@.len(),
                        *self == (DirEntryFiles::Dir { name: *name, files: *files }),
                        tree_fits(*self, spaces as int, sticks as int),
                        output@ == head + forest_text(
                            files@.take(i as int),
                            spaces + sticks,
                            sticks + 3,
                        ),
                {
                    let next_file = &files[i];
                    proof {
                        lemma_forest_fits(files@, spaces + sticks, sticks + 3, i as int);
                        assert(files@.take(i + 1).drop_last() =~= files@.take(i as int));
                        assert(files@.take(i + 1).last() == files@[i as int]);
                        assert(decreases_to!(*self => *next_file));
                    }
                    next_file.debug_files(spaces + sticks, sticks + 3, output);
                }
                assert(files@.take(len as int) =~= files@);
            },
        }
    }
}

/// No two of `kids` stand for the same thing.
pub open spec fn siblings_distinct(kids: Seq<DirEntryFiles>) -> bool {
    forall|i: int, j: int|
        0 <= i < j < kids.len() ==> !files_match(#[trigger] kids[i], #[trigger] kids[j])
}

/// No directory within `e` holds two entries of the same kind and name.
pub open spec fn names_distinct(e: DirEntryFiles) -> bool
    decreases e,
{
    match e {
        DirEntryFiles::File(..) => true,
        DirEntryFiles::Dir { files, .. } => siblings_distinct(files@) && all_names_distinct(files@),
    }
}

/// [`names_distinct`] of each of `kids`.
pub open spec fn all_names_distinct(kids: Seq<DirEntryFiles>) -> bool
    decreases kids,
{
    if kids.len() == 0 {
        true
    } else {
        all_names_distinct(kids.drop_last()) && names_distinct(kids.last())
    }
}

/// The number of entries within `e`, at every depth, `e` itself not counted.
pub open spec fn count_entries(e: DirEntryFiles) -> nat
    decreases e,
{
    match e {
        DirEntryFiles::File(..) => 0,
        DirEntryFiles::Dir { files, .. } => count_forest(files@),
    }
}

/// The number of entries `kids` are and hold, at every depth.
pub open spec fn count_forest(kids: Seq<DirEntryFiles>) -> nat
    decreases kids,
{
    if kids.len() == 0 {
        0
    } else {
        count_forest(kids.drop_last()) + 1 + count_entries(kids.last())
    }
}

/// `==` on entries tells whether they are of the same kind: it is
/// reflexive, symmetric and transitive.
pub proof fn law_eq_is_same_kind(a: DirEntryFiles, b: DirEntryFiles, c: DirEntryFiles)
    ensures
        a.eq_spec(&b) <==> same_kind(a, b),
        a.eq_spec(&a),
        a.eq_spec(&b) ==> b.eq_spec(&a),
        a.eq_spec(&b) && b.eq_spec(&c) ==> a.eq_spec(&c),
{
}

/// Entries match when they are of the same kind and name: a match is
/// reflexive, symmetric and transitive, and matching entries are `==`.
pub proof fn law_files_match_equivalence(a: DirEntryFiles, b: DirEntryFiles, c: DirEntryFiles)
    ensures
        files_match(a, a),
        files_match(a, b) ==> files_match(b, a),
        files_match(a, b) && files_match(b, c) ==> files_match(a, c),
        files_match(a, b) ==> a.eq_spec(&b),
{
}

/// Whether two snapshots are of the same root does not depend on their order.
pub proof fn law_same_root_symmetric(a: DirEntryFiles, b: DirEntryFiles)
    ensures
        (a is Dir && b is Dir && entry_name(a) == entry_name(b)) == (b is Dir && a is Dir
            && entry_name(b) == entry_name(a)),
{
}

proof fn lemma_find_from(list: Seq<DirEntryFiles>, f: DirEntryFiles, i: int)
    requires
        0 <= i,
    ensures
        find_from(list, f, i) matches Some(k) ==> {
            &&& i <= k < list.len()
            &&& files_match(list[k], f)
            &&& forall|j: int| i <= j < k ==> !files_match(#[trigger] list[j], f)
        },
        find_from(list, f, i) is None ==> forall|j: int|
            i <= j < list.len() ==> !files_match(#[trigger] list[j], f),
    decreases list.len() - i,
{
    if i < list.len() && !files_match(list[i], f) {
        lemma_find_from(list, f, i + 1);
    }
}

/// The search finds the first entry that matches, and finds none only
/// where no entry matches.
pub proof fn law_find_match_first(list: Seq<DirEntryFiles>, f: DirEntryFiles)
    ensures
        find_match(list, f) matches Some(k) ==> {
            &&& 0 <= k < list.len()
            &&& files_match(list[k], f)
            &&& forall|j: int| 0 <= j < k ==> !files_match(#[trigger] list[j], f)
        },
        find_match(list, f) is None <==> forall|j: int|
            0 <= j < list.len() ==> !files_match(#[trigger] list[j], f),
{
    lemma_find_from(list, f, 0);
}

proof fn lemma_find_own_position(list: Seq<DirEntryFiles>, i: int, j: int)
    requires
        siblings_distinct(list),
        0 <= j <= i < list.len(),
    ensures
        find_from(list, list[i], j) == Some(i),
    decreases i - j,
{
    if j < i {
        assert(!files_match(list[j], list[i]));
        lemma_find_own_position(list, i, j + 1);
    }
}

proof fn lemma_all_names_distinct(kids: Seq<DirEntryFiles>, i: int)
    requires
        all_names_distinct(kids),
        0 <= i < kids.len(),
    ensures
        names_distinct(kids[i]),
    decreases kids.len(),
{
    if i < kids.len() - 1 {
        lemma_all_names_distinct(kids.drop_last(), i);
    }
}

/// Every line of `lines` reports its entry as found again as itself.
pub open spec fn all_found_as_themselves(lines: Seq<DiffLine>) -> bool {
    forall|k: int| 0 <= k < lines.len() ==> (#[trigger] lines[k]).counterpart == Some(lines[k].entry)
}

/// Every line of `lines` reports its entry as deleted.
pub open spec fn all_deleted(lines: Seq<DiffLine>) -> bool {
    forall|k: int| 0 <= k < lines.len() ==> (#[trigger] lines[k]).counterpart is None
}

proof fn lemma_self_diff_children(
    kids: Seq<DirEntryFiles>,
    others: Seq<DirEntryFiles>,
    t0: int,
    t1: int,
)
    requires
        kids.len() <= others.len(),
        forall|i: int| 0 <= i < kids.len() ==> kids[i] == others[i],
        siblings_distinct(others),
        all_names_distinct(kids),
    ensures
        all_found_as_themselves(diff_children(kids, others, t0, t1)),
    decreases kids,
{
    if kids.len() > 0 {
        let n = kids.len() - 1;
        let f = kids.last();
        assert(kids.drop_last().len() == n);
        lemma_self_diff_children(kids.drop_last(), others, t0, t1);
        lemma_find_own_position(others, n, 0);
        assert(f == others[n]);
        lemma_all_names_distinct(kids, n);
        lemma_self_diff(f, t0 + 3, t1 + 3);
        let prefix = diff_children(kids.drop_last(), others, t0, t1);
        let line = DiffLine { t0, t1, entry: f, counterpart: Some(others[n]) };
        let sub = diff_lines(f, children(others[n]), t0 + 3, t1 + 3);
        assert(diff_children(kids, others, t0, t1) == prefix.push(line) + sub);
        assert forall|k: int|
            0 <= k < (prefix.push(line) + sub).len() implies (#[trigger] (prefix.push(line)
            + sub)[k]).counterpart == Some((prefix.push(line) + sub)[k].entry) by {
            if k < prefix.len() {
                assert((prefix.push(line) + sub)[k] == prefix[k]);
            } else if k == prefix.len() {
                assert((prefix.push(line) + sub)[k] == line);
            } else {
                assert((prefix.push(line) + sub)[k] == sub[k - prefix.len() - 1]);
            }
        }
    }
}

proof fn lemma_self_diff(a: DirEntryFiles, t0: int, t1: int)
    requires
        names_distinct(a),
    ensures
        all_found_as_themselves(diff_lines(a, children(a), t0, t1)),
    decreases a,
{
    match a {
        DirEntryFiles::File(..) => {},
        DirEntryFiles::Dir { files, .. } => {
            lemma_self_diff_children(files@, files@, t0, t1);
        },
    }
}

/// A snapshot compared with itself reports each entry as found again as
/// itself, so it reports no deletion and no change of size, provided that
/// no directory in it holds two entries of the same kind and name.
pub proof fn law_self_comparison(a: DirEntryFiles, t0: int, t1: int)
    requires
        names_distinct(a),
    ensures
        all_found_as_themselves(diff_lines(a, children(a), t0, t1)),
{
    lemma_self_diff(a, t0, t1);
}

proof fn lemma_diff_empty_children(kids: Seq<DirEntryFiles>, t0: int, t1: int)
    ensures
        all_deleted(diff_children(kids, seq![], t0, t1)),
    decreases kids,
{
    if kids.len() > 0 {
        let f = kids.last();
        lemma_diff_empty_children(kids.drop_last(), t0, t1);
        lemma_diff_empty(f, t0 + 3, t1 + 3);
        let prefix = diff_children(kids.drop_last(), seq![], t0, t1);
        let line = DiffLine { t0, t1, entry: f, counterpart: None };
        let sub = diff_lines(f, seq![], t0 + 3, t1 + 3);
        assert(find_match(seq![], f) is None);
        assert(diff_children(kids, seq![], t0, t1) == prefix.push(line) + sub);
        assert forall|k: int| 0 <= k < (prefix.push(line) + sub).len() implies (#[trigger] (
        prefix.push(line) + sub)[k]).counterpart is None by {
            if k < prefix.len() {
                assert((prefix.push(line) + sub)[k] == prefix[k]);
            } else if k == prefix.len() {
                assert((prefix.push(line) + sub)[k] == line);
            } else {
                assert((prefix.push(line) + sub)[k] == sub[k - prefix.len() - 1]);
            }
        }
    }
}

proof fn lemma_diff_empty(a: DirEntryFiles, t0: int, t1: int)
    ensures
        all_deleted(diff_lines(a, seq![], t0, t1)),
    decreases a,
{
    match a {
        DirEntryFiles::File(..) => {},
        DirEntryFiles::Dir { files, .. } => {
            lemma_diff_empty_children(files@, t0, t1);
        },
    }
}

/// Compared with a snapshot that holds nothing, every entry of a snapshot
/// is reported deleted.
pub proof fn law_comparison_with_empty(a: DirEntryFiles, t0: int, t1: int)
    ensures
        all_deleted(diff_lines(a, seq![], t0, t1)),
{
    lemma_diff_empty(a, t0, t1);
}

proof fn lemma_count_children(
    kids: Seq<DirEntryFiles>,
    others: Seq<DirEntryFiles>,
    t0: int,
    t1: int,
)
    ensures
        diff_children(kids, others, t0, t1).len() == count_forest(kids),
    decreases kids,
{
    if kids.len() > 0 {
        let f = kids.last();
        let inner = match find_match(others, f) {
            Some(i) => children(others[i]),
            None => seq![],
        };
        lemma_count_children(kids.drop_last(), others, t0, t1);
        lemma_count(f, inner, t0 + 3, t1 + 3);
    }
}

proof fn lemma_count(a: DirEntryFiles, others: Seq<DirEntryFiles>, t0: int, t1: int)
    ensures
        diff_lines(a, others, t0, t1).len() == count_entries(a),
    decreases a,
{
    match a {
        DirEntryFiles::File(..) => {},
        DirEntryFiles::Dir { files, .. } => {
            lemma_count_children(files@, others, t0, t1);
        },
    }
}

/// A comparison reports every entry of the first snapshot, at every depth,
/// exactly once: it has as many lines as the first snapshot has entries.
pub proof fn law_comparison_covers_every_entry(
    a: DirEntryFiles,
    others: Seq<DirEntryFiles>,
    t0: int,
    t1: int,
)
    ensures
        diff_lines(a, others, t0, t1).len() == count_entries(a),
{
    lemma_count(a, others, t0, t1);
}

/// Line `j` stands below line `k` of a report: it comes after it, and it and
/// every line between them are indented further than line `k`.
pub open spec fn below(lines: Seq<DiffLine>, k: int, j: int) -> bool {
    &&& 0 <= k < j < lines.len()
    &&& forall|m: int| k < m <= j ==> (#[trigger] lines[m]).t0 > lines[k].t0
}

/// Every line that stands below a line reporting a deletion reports a
/// deletion too.
pub open spec fn deletions_cover_below(lines: Seq<DiffLine>) -> bool {
    forall|k: int, j: int|
        #[trigger] below(lines, k, j) && lines[k].counterpart is None
            ==> (#[trigger] lines[j]).counterpart is None
}

/// Every line of `lines` is indented at least `t0`.
pub open spec fn indented_at_least(lines: Seq<DiffLine>, t0: int) -> bool {
    forall|k: int| 0 <= k < lines.len() ==> (#[trigger] lines[k]).t0 >= t0
}

proof fn lemma_indent_children(kids: Seq<DirEntryFiles>, others: Seq<DirEntryFiles>, t0: int, t1: int)
    ensures
        indented_at_least(diff_children(kids, others, t0, t1), t0),
    decreases kids,
{
    if kids.len() > 0 {
        let f = kids.last();
        let inner = match find_match(others, f) {
            Some(i) => children(others[i]),
            None => seq![],
        };
        lemma_indent_children(kids.drop_last(), others, t0, t1);
        lemma_indent(f, inner, t0 + 3, t1 + 3);
        let x = diff_children(kids.drop_last(), others, t0, t1);
        let sub = diff_lines(f, inner, t0 + 3, t1 + 3);
        let l = diff_children(kids, others, t0, t1);
        assert forall|k: int| 0 <= k < l.len() implies (#[trigger] l[k]).t0 >= t0 by {
            if k < x.len() {
                assert(l[k] == x[k]);
            } else if k > x.len() {
                assert(l[k] == sub[k - x.len() - 1]);
            }
        }
    }
}

proof fn lemma_indent(a: DirEntryFiles, others: Seq<DirEntryFiles>, t0: int, t1: int)
    ensures
        indented_at_least(diff_lines(a, others, t0, t1), t0),
    decreases a,
{
    match a {
        DirEntryFiles::File(..) => {},
        DirEntryFiles::Dir { files, .. } => {
            lemma_indent_children(files@, others, t0, t1);
        },
    }
}

proof fn lemma_cover_children(kids: Seq<DirEntryFiles>, others: Seq<DirEntryFiles>, t0: int, t1: int)
    ensures
        deletions_cover_below(diff_children(kids, others, t0, t1)),
    decreases kids,
{
    if kids.len() > 0 {
        let f = kids.last();
        let found = find_match(others, f);
        let inner = match found {
            Some(i) => children(others[i]),
            None => seq![],
        };
        lemma_cover_children(kids.drop_last(), others, t0, t1);
        lemma_indent_children(kids.drop_last(), others, t0, t1);
        lemma_cover(f, inner, t0 + 3, t1 + 3);
        lemma_indent(f, inner, t0 + 3, t1 + 3);
        lemma_diff_empty(f, t0 + 3, t1 + 3);
        let x = diff_children(kids.drop_last(), others, t0, t1);
        let sub = diff_lines(f, inner, t0 + 3, t1 + 3);
        let l = diff_children(kids, others, t0, t1);
        let n = x.len() as int;
        assert(l[n].t0 == t0);
        assert(l[n].counterpart is None ==> found is None);
        assert forall|k: int, j: int|
            #[trigger] below(l, k, j) && l[k].counterpart is None implies (#[trigger] l[j]).counterpart is None by {
            if j < n {
                assert(below(x, k, j)) by {
                    assert forall|m: int| k < m <= j implies (#[trigger] x[m]).t0 > x[k].t0 by {
                        assert(l[m] == x[m]);
                    }
                }
                assert(l[j] == x[j]);
            } else if k < n {
                assert(l[k] == x[k]);
                assert(l[n].t0 > l[k].t0);
            } else if k == n {
                assert(l[j] == sub[j - n - 1]);
            } else {
                assert(below(sub, k - n - 1, j - n - 1)) by {
                    assert forall|m: int| k - n - 1 < m <= j - n - 1 implies (#[trigger] sub[m]).t0
                        > sub[k - n - 1].t0 by {
                        assert(l[m + n + 1] == sub[m]);
                        assert(l[k] == sub[k - n - 1]);
                    }
                }
                assert(l[k] == sub[k - n - 1]);
                assert(l[j] == sub[j - n - 1]);
            }
        }
    }
}

proof fn lemma_cover(a: DirEntryFiles, others: Seq<DirEntryFiles>, t0: int, t1: int)
    ensures
        deletions_cover_below(diff_lines(a, others, t0, t1)),
    decreases a,
{
    match a {
        DirEntryFiles::File(..) => {},
        DirEntryFiles::Dir { files, .. } => {
            lemma_cover_children(files@, others, t0, t1);
        },
    }
}

/// What a directory that is reported deleted holds is reported deleted too,
/// at every depth: in a comparison report, every line that stands below a
/// line reporting a deletion (after it, and indented further, as are all
/// lines between them) reports a deletion.
pub proof fn law_deleted_directory_contents_deleted(
    a: DirEntryFiles,
    others: Seq<DirEntryFiles>,
    t0: int,
    t1: int,
)
    ensures
        deletions_cover_below(diff_lines(a, others, t0, t1)),
{
    lemma_cover(a, others, t0, t1);
}

/// No name within `e`, its own included, holds a line feed.
pub open spec fn names_single_line(e: DirEntryFiles) -> bool
    decreases e,
{
    match e {
        DirEntryFiles::File(name, _) => single_line(name@),
        DirEntryFiles::Dir { name, files } => single_line(name@) && all_names_single_line(files@),
    }
}

/// [`names_single_line`] of each of `kids`.
pub open spec fn all_names_single_line(kids: Seq<DirEntryFiles>) -> bool
    decreases kids,
{
    if kids.len() == 0 {
        true
    } else {
        all_names_single_line(kids.drop_last()) && names_single_line(kids.last())
    }
}

proof fn lemma_head_single_line(spaces: int, sticks: int)
    ensures
        line_feeds(tree_head(spaces, sticks)) == 0,
{
    lemma_repeat_single_line(' ', spaces as nat);
    lemma_repeat_single_line('-', sticks as nat);
    assert(single_line(tree_head(spaces, sticks)));
    lemma_single_line(tree_head(spaces, sticks));
}

proof fn lemma_forest_lines(kids: Seq<DirEntryFiles>, spaces: int, sticks: int)
    requires
        all_names_single_line(kids),
    ensures
        line_feeds(forest_text(kids, spaces, sticks)) == count_forest(kids),
    decreases kids,
{
    if kids.len() > 0 {
        lemma_forest_lines(kids.drop_last(), spaces, sticks);
        lemma_tree_lines(kids.last(), spaces, sticks);
        lemma_line_feeds_append(
            forest_text(kids.drop_last(), spaces, sticks),
            tree_text(kids.last(), spaces, sticks),
        );
    }
}

proof fn lemma_tree_lines(e: DirEntryFiles, spaces: int, sticks: int)
    requires
        names_single_line(e),
    ensures
        line_feeds(tree_text(e, spaces, sticks)) == 1 + count_entries(e),
    decreases e,
{
    let head = tree_head(spaces, sticks);
    lemma_head_single_line(spaces, sticks);
    lemma_single_line(entry_name(e));
    lemma_line_feeds_append(head, entry_name(e));
    assert(line_feeds(seq!['\n']) == 1) by {
        assert(seq!['\n'].drop_last() =~= Seq::<char>::empty());
        assert(line_feeds(Seq::<char>::empty()) == 0);
        assert(seq!['\n'].last() == '\n');
    }
    assert(line_feeds(seq![' ']) == 0) by {
        assert(seq![' '].drop_last() =~= Seq::<char>::empty());
        assert(line_feeds(Seq::<char>::empty()) == 0);
        assert(seq![' '].last() == ' ');
    }
    match e {
        DirEntryFiles::File(name, size) => {
            lemma_decimal_single_line(size as nat);
            lemma_single_line(decimal(size as nat));
            lemma_line_feeds_append(head + name@, seq![' ']);
            lemma_line_feeds_append(head + name@ + seq![' '], decimal(size as nat));
            lemma_line_feeds_append(head + name@ + seq![' '] + decimal(size as nat), seq!['\n']);
        },
        DirEntryFiles::Dir { name, files } => {
            lemma_forest_lines(files@, spaces + sticks, sticks + 3);
            lemma_line_feeds_append(head + name@, seq!['\n']);
            lemma_line_feeds_append(
                head + name@ + seq!['\n'],
                forest_text(files@, spaces + sticks, sticks + 3),
            );
        },
    }
}

/// The tree listing of every entry, an empty directory included, starts
/// with the entry's own line: the indentation, the `|`, the dashes and its
/// name. Where no name holds a line feed, the listing has one line for the
/// entry and one for each entry it holds, at every depth.
pub proof fn law_tree_listing_lines(e: DirEntryFiles, spaces: int, sticks: int)
    ensures
        (tree_head(spaces, sticks) + entry_name(e)).is_prefix_of(tree_text(e, spaces, sticks)),
        names_single_line(e) ==> line_feeds(tree_text(e, spaces, sticks)) == 1 + count_entries(e),
{
    let p = tree_head(spaces, sticks) + entry_name(e);
    match e {
        DirEntryFiles::File(name, size) => {
            assert(tree_text(e, spaces, sticks).subrange(0, p.len() as int) =~= p);
        },
        DirEntryFiles::Dir { name, files } => {
            assert(tree_text(e, spaces, sticks).subrange(0, p.len() as int) =~= p);
        },
    }
    if names_single_line(e) {
        lemma_tree_lines(e, spaces, sticks);
    }
}

/// A file found again as a file: its report line shows its size, and,
/// exactly where the two sizes differ, an arrow and the other size.
pub proof fn law_size_change_shown(
    e: DirEntryFiles,
    other: DirEntryFiles,
    t0: nat,
    t1: nat,
)
    requires
        e is File,
        other is File,
    ensures
        mod_line(t0, t1, e, other) == line_head(t0, t1, e) + seq![' '] + decimal(e->1 as nat)
            + bytes_word() + (if e->1 == other->1 {
            seq![]
        } else {
            arrow_word() + decimal(other->1 as nat) + bytes_word()
        }) + seq!['\n'],
{
    if e->1 == other->1 {
        assert(mod_line(t0, t1, e, other) =~= line_head(t0, t1, e) + seq![' '] + decimal(
            e->1 as nat,
        ) + bytes_word() + seq![] + seq!['\n']);
    } else {
        assert(mod_line(t0, t1, e, other) =~= line_head(t0, t1, e) + seq![' '] + decimal(
            e->1 as nat,
        ) + bytes_word() + (arrow_word() + decimal(other->1 as nat) + bytes_word())
            + seq!['\n']);
    }
}

/// The report line of a directory found again is its indentation, `|`,
/// dashes and name, and nothing more; a file found again as a directory
/// shows no size.
pub proof fn law_mod_line_without_sizes(e: DirEntryFiles, other: DirEntryFiles, t0: nat, t1: nat)
    ensures
        e is Dir ==> mod_line(t0, t1, e, other) == repeat_char(' ', t0) + seq!['|'] + repeat_char(
            '-',
            t1,
        ) + entry_name(e) + seq!['\n'],
        e is File && other is Dir ==> mod_line(t0, t1, e, other) == repeat_char(' ', t0)
            + repeat_char('-', t1) + entry_name(e) + seq![' ', '\n'],
{
    if e is File && other is Dir {
        assert(mod_line(t0, t1, e, other) =~= repeat_char(' ', t0) + repeat_char('-', t1)
            + entry_name(e) + seq![' ', '\n']);
    }
}

/// `e` is a directory that holds entries.
pub open spec fn holds_entries(e: DirEntryFiles) -> bool {
    children(e).len() > 0
}

/// Line `k + 1` of `lines` follows line `k` as in an outline: right after a
/// directory that holds entries comes its first entry, three steps further
/// in; after any other line the report goes on no further in.
pub open spec fn outline_step(lines: Seq<DiffLine>, k: int) -> bool {
    if holds_entries(lines[k].entry) {
        lines[k + 1].t0 == lines[k].t0 + 3 && lines[k + 1].entry == children(lines[k].entry)[0]
    } else {
        lines[k + 1].t0 <= lines[k].t0
    }
}

/// `lines` report the entries `kids`, and what they hold, as an outline
/// indented from `t0`, `t1`: both indentations move together, the report
/// starts with the first of `kids` at `t0`, and ends with an entry that
/// holds nothing.
pub open spec fn outline(lines: Seq<DiffLine>, kids: Seq<DirEntryFiles>, t0: int, t1: int) -> bool {
    &&& forall|k: int| 0 <= k < lines.len() ==> (#[trigger] lines[k]).t1 - lines[k].t0 == t1 - t0
    &&& indented_at_least(lines, t0)
    &&& (lines.len() > 0 <==> kids.len() > 0)
    &&& lines.len() > 0 ==> lines[0].t0 == t0 && lines[0].entry == kids[0]
    &&& lines.len() > 0 ==> !holds_entries(lines.last().entry)
    &&& forall|k: int| 0 <= k < lines.len() - 1 ==> #[trigger] outline_step(lines, k)
}

proof fn lemma_outline_children(kids: Seq<DirEntryFiles>, others: Seq<DirEntryFiles>, t0: int, t1: int)
    ensures
        outline(diff_children(kids, others, t0, t1), kids, t0, t1),
    decreases kids,
{
    if kids.len() > 0 {
        let f = kids.last();
        let found = find_match(others, f);
        let inner = match found {
            Some(i) => children(others[i]),
            None => seq![],
        };
        let k0 = kids.drop_last();
        lemma_outline_children(k0, others, t0, t1);
        lemma_outline(f, inner, t0 + 3, t1 + 3);
        lemma_count(f, inner, t0 + 3, t1 + 3);
        let x = diff_children(k0, others, t0, t1);
        let sub = diff_lines(f, inner, t0 + 3, t1 + 3);
        let l = diff_children(kids, others, t0, t1);
        let n = x.len() as int;
        assert(l == x.push(l[n]) + sub);
        assert(l[n].entry == f && l[n].t0 == t0 && l[n].t1 == t1);
        assert(holds_entries(f) ==> sub.len() > 0) by {
            if holds_entries(f) {
                match f {
                    DirEntryFiles::Dir { files, .. } => {
                        assert(count_forest(files@) > 0);
                    },
                    DirEntryFiles::File(..) => {},
                }
            }
        }
        assert(sub.len() > 0 ==> holds_entries(f));
        assert forall|k: int| 0 <= k < l.len() implies (#[trigger] l[k]).t1 - l[k].t0 == t1 - t0 by {
            if k < n {
                assert(l[k] == x[k]);
            } else if k > n {
                assert(l[k] == sub[k - n - 1]);
            }
        }
        assert forall|k: int| 0 <= k < l.len() implies (#[trigger] l[k]).t0 >= t0 by {
            if k < n {
                assert(l[k] == x[k]);
            } else if k > n {
                assert(l[k] == sub[k - n - 1]);
            }
        }
        if n > 0 {
            assert(l[0] == x[0]);
            assert(k0[0] == kids[0]);
        } else {
            assert(k0.len() == 0);
        }
        if sub.len() > 0 {
            assert(l.last() == sub.last());
        } else {
            assert(l.last() == l[n]);
        }
        assert forall|k: int| 0 <= k < l.len() - 1 implies #[trigger] outline_step(l, k) by {
            if k < n - 1 {
                assert(outline_step(x, k));
                assert(l[k] == x[k] && l[k + 1] == x[k + 1]);
            } else if k == n - 1 {
                assert(l[k] == x.last());
            } else if k == n {
                assert(l[k + 1] == sub[0]);
            } else {
                assert(outline_step(sub, k - n - 1));
                assert(l[k] == sub[k - n - 1] && l[k + 1] == sub[k - n]);
            }
        }
    }
}

proof fn lemma_outline(a: DirEntryFiles, others: Seq<DirEntryFiles>, t0: int, t1: int)
    ensures
        outline(diff_lines(a, others, t0, t1), children(a), t0, t1),
    decreases a,
{
    match a {
        DirEntryFiles::File(..) => {},
        DirEntryFiles::Dir { files, .. } => {
            lemma_outline_children(files@, others, t0, t1);
        },
    }
}

/// A comparison report is an outline of the first snapshot: both
/// indentations move together; it starts with the first entry, at the given
/// indentation; right after a directory that holds entries comes its first
/// entry, three steps further in; after any other entry the report goes on
/// no further in; and it ends with an entry that holds nothing.
pub proof fn law_comparison_is_an_outline(
    a: DirEntryFiles,
    others: Seq<DirEntryFiles>,
    t0: int,
    t1: int,
)
    ensures
        outline(diff_lines(a, others, t0, t1), children(a), t0, t1),
{
    lemma_outline(a, others, t0, t1);
}

/// Each line of `lines` indented `t0` reports an entry of `kids`, with the
/// first entry of `others` of its kind and name as its counterpart, and as
/// deleted where `others` holds none.
pub open spec fn top_lines_matched(
    lines: Seq<DiffLine>,
    kids: Seq<DirEntryFiles>,
    others: Seq<DirEntryFiles>,
    t0: int,
) -> bool {
    forall|k: int|
        0 <= k < lines.len() && (#[trigger] lines[k]).t0 == t0 ==> {
            &&& kids.contains(lines[k].entry)
            &&& lines[k].counterpart == match find_match(others, lines[k].entry) {
                Some(j) => Some(others[j]),
                None => None,
            }
        }
}

proof fn lemma_top_lines_children(
    kids: Seq<DirEntryFiles>,
    others: Seq<DirEntryFiles>,
    t0: int,
    t1: int,
)
    ensures
        top_lines_matched(diff_children(kids, others, t0, t1), kids, others, t0),
    decreases kids,
{
    if kids.len() > 0 {
        let f = kids.last();
        let inner = match find_match(others, f) {
            Some(i) => children(others[i]),
            None => seq![],
        };
        let k0 = kids.drop_last();
        lemma_top_lines_children(k0, others, t0, t1);
        lemma_indent(f, inner, t0 + 3, t1 + 3);
        let x = diff_children(k0, others, t0, t1);
        let sub = diff_lines(f, inner, t0 + 3, t1 + 3);
        let l = diff_children(kids, others, t0, t1);
        let n = x.len() as int;
        assert(kids[kids.len() - 1] == f);
        assert forall|k: int| 0 <= k < l.len() && (#[trigger] l[k]).t0 == t0 implies {
            &&& kids.contains(l[k].entry)
            &&& l[k].counterpart == match find_match(others, l[k].entry) {
                Some(j) => Some(others[j]),
                None => None,
            }
        } by {
            if k < n {
                assert(l[k] == x[k]);
                let i = choose|i: int| 0 <= i < k0.len() && k0[i] == x[k].entry;
                assert(kids[i] == k0[i]);
            } else if k > n {
                assert(l[k] == sub[k - n - 1]);
            }
        }
    }
}

/// The entries that a directory holds are each reported, at the
/// indentation given, with the first entry of the other side of their kind
/// and name as their counterpart, and as deleted exactly where the other
/// side holds none.
pub proof fn law_top_lines_matched(a: DirEntryFiles, others: Seq<DirEntryFiles>, t0: int, t1: int)
    ensures
        top_lines_matched(diff_lines(a, others, t0, t1), children(a), others, t0),
{
    match a {
        DirEntryFiles::File(..) => {},
        DirEntryFiles::Dir { files, .. } => {
            lemma_top_lines_children(files@, others, t0, t1);
        },
    }
}

/// The report lines of a new and of a deleted entry: the indentation, a `|`
/// for a directory, the dashes, the name, and ` new` or ` deleted`.
pub proof fn law_marked_lines(e: DirEntryFiles, t0: nat, t1: nat)
    ensures
        ({
            let head = if e is Dir {
                repeat_char(' ', t0) + seq!['|'] + repeat_char('-', t1) + entry_name(e)
            } else {
                repeat_char(' ', t0) + repeat_char('-', t1) + entry_name(e)
            };
            &&& new_line(t0, t1, e) == head + seq![' ', 'n', 'e', 'w', '\n']
            &&& deleted_line(t0, t1, e) == head + seq![' ', 'd', 'e', 'l', 'e', 't', 'e', 'd', '\n']
        }),
{
    let head = line_head(t0, t1, e);
    assert(new_line(t0, t1, e) =~= head + seq![' ', 'n', 'e', 'w', '\n']);
    assert(deleted_line(t0, t1, e) =~= head + seq![' ', 'd', 'e', 'l', 'e', 't', 'e', 'd', '\n']);
}

/// In the tree listing, the line of a directory that holds entries is
/// followed by the line of its first entry, indented by the dashes of its
/// parent more and with three dashes more.
pub proof fn law_tree_listing_first_entry(e: DirEntryFiles, spaces: int, sticks: int)
    requires
        holds_entries(e),
    ensures
        (tree_head(spaces, sticks) + entry_name(e) + seq!['\n'] + tree_head(
            spaces + sticks,
            sticks + 3,
        ) + entry_name(children(e)[0])).is_prefix_of(tree_text(e, spaces, sticks)),
{
    let kids = children(e);
    lemma_forest_first(kids, spaces + sticks, sticks + 3);
    let own = tree_head(spaces, sticks) + entry_name(e) + seq!['\n'];
    let first = tree_head(spaces + sticks, sticks + 3) + entry_name(kids[0]);
    let rest = forest_text(kids, spaces + sticks, sticks + 3);
    assert(tree_text(e, spaces, sticks) == own + rest);
    assert((own + first).len() <= (own + rest).len());
    assert forall|i: int| 0 <= i < (own + first).len() implies (own + first)[i] == (own + rest)[i] by {
        if i >= own.len() {
            assert(first[i - own.len()] == rest[i - own.len()]);
        }
    }
}

proof fn lemma_forest_first(kids: Seq<DirEntryFiles>, spaces: int, sticks: int)
    requires
        kids.len() > 0,
    ensures
        (tree_head(spaces, sticks) + entry_name(kids[0])).is_prefix_of(
            forest_text(kids, spaces, sticks),
        ),
    decreases kids.len(),
{
    let p = tree_head(spaces, sticks) + entry_name(kids[0]);
    if kids.len() == 1 {
        law_tree_listing_lines(kids[0], spaces, sticks);
        assert(kids.drop_last() =~= Seq::<DirEntryFiles>::empty());
        assert(forest_text(kids.drop_last(), spaces, sticks) == Seq::<char>::empty());
        assert(kids.last() == kids[0]);
        assert(forest_text(kids, spaces, sticks) =~= tree_text(kids[0], spaces, sticks));
    } else {
        lemma_forest_first(kids.drop_last(), spaces, sticks);
        let a = forest_text(kids.drop_last(), spaces, sticks);
        let b = tree_text(kids.last(), spaces, sticks);
        assert(kids.drop_last()[0] == kids[0]);
        assert forall|i: int| 0 <= i < p.len() implies p[i] == (a + b)[i] by {
            assert(p[i] == a[i]);
        }
    }
}

/// The text of a report is the text of its lines, one after another, in
/// order; a line found again is written as found again, any other as
/// deleted.
pub proof fn law_report_text(x: Seq<DiffLine>, y: Seq<DiffLine>, l: DiffLine)
    ensures
        render(x + y) == render(x) + render(y),
        render(seq![l]) == match l.counterpart {
            Some(other) => mod_line(l.t0 as nat, l.t1 as nat, l.entry, other),
            None => deleted_line(l.t0 as nat, l.t1 as nat, l.entry),
        },
{
    lemma_render_append(x, y);
    assert(seq![l].drop_last() =~= Seq::<DiffLine>::empty());
    assert(render(Seq::<DiffLine>::empty()) == Seq::<char>::empty());
    assert(render(seq![l]) =~= render_line(l));
}

/// The tree listing of a file is one line: the indentation, `|`, the
/// dashes, the name, a space and the size.
pub proof fn law_tree_listing_of_file(name: String, size: u64, spaces: int, sticks: int)
    ensures
        tree_text(DirEntryFiles::File(name, size), spaces, sticks) == repeat_char(' ', spaces as nat)
            + seq!['|'] + repeat_char('-', sticks as nat) + name@ + seq![' '] + decimal(size as nat)
            + seq!['\n'],
{
}

/// Two entries match exactly where both are files or both are directories,
/// and their names are the same.
pub proof fn law_matching_means_kind_and_name(a: DirEntryFiles, b: DirEntryFiles)
    ensures
        same_kind(a, b) <==> ((a is File) == (b is File)),
        files_match(a, b) <==> ((a is File) == (b is File) && entry_name(a) == entry_name(b)),
{
}

proof fn lemma_same_forest_text(xs: Seq<DirEntryFiles>, ys: Seq<DirEntryFiles>, spaces: int, sticks: int)
    requires
        same_entries(xs, ys),
    ensures
        forest_text(xs, spaces, sticks) == forest_text(ys, spaces, sticks),
    decreases xs,
{
    if xs.len() > 0 {
        lemma_same_forest_text(xs.drop_last(), ys.drop_last(), spaces, sticks);
        lemma_same_tree_text(xs.last(), ys.last(), spaces, sticks);
    }
}

proof fn lemma_same_tree_text(a: DirEntryFiles, b: DirEntryFiles, spaces: int, sticks: int)
    requires
        same_entry(a, b),
    ensures
        tree_text(a, spaces, sticks) == tree_text(b, spaces, sticks),
    decreases a,
{
    match a {
        DirEntryFiles::File(..) => {},
        DirEntryFiles::Dir { name, files } => {
            lemma_same_forest_text(files@, children(b), spaces + sticks, sticks + 3);
        },
    }
}

/// A copy of a tree is listed exactly as the tree itself, at any
/// indentation: the same names, sizes and entries, in the same order.
pub proof fn law_copy_lists_the_same(a: DirEntryFiles, b: DirEntryFiles, spaces: int, sticks: int)
    requires
        same_entry(a, b),
    ensures
        tree_text(a, spaces, sticks) == tree_text(b, spaces, sticks),
        count_entries(a) == count_entries(b),
{
    lemma_same_tree_text(a, b, spaces, sticks);
    lemma_same_count(a, b);
}

proof fn lemma_same_count_forest(xs: Seq<DirEntryFiles>, ys: Seq<DirEntryFiles>)
    requires
        same_entries(xs, ys),
    ensures
        count_forest(xs) == count_forest(ys),
    decreases xs,
{
    if xs.len() > 0 {
        lemma_same_count_forest(xs.drop_last(), ys.drop_last());
        lemma_same_count(xs.last(), ys.last());
    }
}

proof fn lemma_same_count(a: DirEntryFiles, b: DirEntryFiles)
    requires
        same_entry(a, b),
    ensures
        count_entries(a) == count_entries(b),
    decreases a,
{
    match a {
        DirEntryFiles::File(..) => {},
        DirEntryFiles::Dir { name, files } => {
            lemma_same_count_forest(files@, children(b));
        },
    }
}

} // verus!
