use vstd::prelude::*;

verus! {

/// What a parser missed in its input.
#[derive(Clone, Copy, Debug, PartialEq, Eq, Hash, Structural)]
pub enum ErrorKind {
    /// The input ended before a field of fixed length was complete.
    Eof,
    /// A blank or a tab was expected.
    Space,
    /// A byte other than a blank and the zero byte was expected.
    IsNot,
}

/// Why a record could not be parsed.
#[derive(Clone, Copy, Debug, PartialEq, Eq, Hash, Structural)]
pub struct ParseError {
    pub kind: ErrorKind,
    /// The place in the record at which the parser stopped.
    pub at: usize,
}

/// Whether a byte separates the fields of a record: a blank or a tab.
pub open spec fn is_space(byte: u8) -> bool {
    byte == 32 || byte == 9
}

/// Whether a byte belongs to a field: any byte but a blank and the zero
/// byte.
pub open spec fn is_word(byte: u8) -> bool {
    byte != 32 && byte != 0
}

/// The end of the longest run of separators that starts at `from`.
pub open spec fn spaces_end(input: Seq<u8>, from: int) -> int
    decreases input.len() - from,
{
    if 0 <= from < input.len() && is_space(input[from]) {
        spaces_end(input, from + 1)
    } else {
        from
    }
}

/// The end of the longest field that starts at `from`.
pub open spec fn word_end(input: Seq<u8>, from: int) -> int
    decreases input.len() - from,
{
    if 0 <= from < input.len() && is_word(input[from]) {
        word_end(input, from + 1)
    } else {
        from
    }
}

/// The place just behind the first zero byte at or after `from`, or the
/// end of the input where there is none: the end of the record that starts
/// at `from`.
pub open spec fn record_end(input: Seq<u8>, from: int) -> int
    decreases input.len() - from,
{
    if 0 <= from < input.len() {
        if input[from] == 0 {
            from + 1
        } else {
            record_end(input, from + 1)
        }
    } else {
        from
    }
}

/// Skips the separators that start at `from`.
pub fn space1(input: &[u8], from: usize) -> (end: usize)
    requires
        from <= input@.len(),
    ensures
        end == spaces_end(input@, from as int),
        from <= end <= input@.len(),
{
    let mut end: usize = from;
    while end < input.len() && (input[end] == 32u8 || input[end] == 9u8)
        invariant
            from <= end <= input@.len(),
            spaces_end(input@, end as int) == spaces_end(input@, from as int),
        decreases input@.len() - end,
    {
        end += 1;
    }
    end
}

/// Skips the field that starts at `from`.
pub fn non_space(input: &[u8], from: usize) -> (end: usize)
    requires
        from <= input@.len(),
    ensures
        end == word_end(input@, from as int),
        from <= end <= input@.len(),
{
    let mut end: usize = from;
    while end < input.len() && input[end] != 32u8 && input[end] != 0u8
        invariant
            from <= end <= input@.len(),
            word_end(input@, end as int) == word_end(input@, from as int),
        decreases input@.len() - end,
    {
        end += 1;
    }
    end
}

/// Skips the forty bytes of a hash that starts at `from`, where the input
/// holds as many.
pub fn hash(input: &[u8], from: usize) -> (end: Option<usize>)
    requires
        from <= input@.len(),
    ensures
        match end {
            Some(end) => input@.len() - from >= 40 && end == from + 40,
            None => input@.len() - from < 40,
        },
{
    if input.len() - from >= 40 {
        Some(from + 40)
    } else {
        None
    }
}

/// Finds the end of the record that starts at `from`.
fn read_until_zero(input: &[u8], from: usize) -> (end: usize)
    requires
        from < input@.len(),
    ensures
        end == record_end(input@, from as int),
        from < end <= input@.len(),
{
    let mut end: usize = from;
    while end < input.len() && input[end] != 0u8
        invariant
            from <= end <= input@.len(),
            record_end(input@, end as int) == record_end(input@, from as int),
        decreases input@.len() - end,
    {
        end += 1;
    }
    if end < input.len() {
        end + 1
    } else {
        end
    }
}

/// The bytes of the input from `from` up to `to`.
fn copy_range(input: &[u8], from: usize, to: usize) -> (r: Vec<u8>)
    requires
        from <= to <= input@.len(),
    ensures
        r@ == input@.subrange(from as int, to as int),
{
    let mut bytes: Vec<u8> = Vec::new();
    let mut i: usize = from;
    while i < to
        invariant
            from <= i <= to <= input@.len(),
            bytes@ == input@.subrange(from as int, i as int),
        decreases to - i,
    {
        bytes.push(input[i]);
        i += 1;
        assert(bytes@ =~= input@.subrange(from as int, i as int));
    }
    bytes
}

/// Whether two byte strings are the same.
fn same_bytes(one: &[u8], other: &[u8]) -> (r: bool)
    ensures
        r == (one@ == other@),
{
    if one.len() != other.len() {
        return false;
    }
    let mut i: usize = 0;
    while i < one.len()
        invariant
            i <= one@.len(),
            one@.len() == other@.len(),
            forall|j: int| 0 <= j < i ==> one@[j] == other@[j],
        decreases one@.len() - i,
    {
        if one[i] != other[i] {
            return false;
        }
        i += 1;
    }
    assert(one@ =~= other@);
    true
}

/// The fields of a record of the status: the two status bytes, separators,
/// and the file name, which ends at the first blank or zero byte. Whatever
/// follows the name is not read.
pub open spec fn status_fields(record: Seq<u8>) -> Result<(Seq<u8>, u8, u8), ParseError> {
    if record.len() < 2 {
        Err(ParseError { kind: ErrorKind::Eof, at: record.len() as usize })
    } else {
        let name = spaces_end(record, 2);
        let end = word_end(record, name);
        if name == 2 {
            Err(ParseError { kind: ErrorKind::Space, at: 2 })
        } else if end == name {
            Err(ParseError { kind: ErrorKind::IsNot, at: name as usize })
        } else {
            Ok((record.subrange(name, end), record[0], record[1]))
        }
    }
}

/// The fields of a record of the tree listing: mode, type, hash and file
/// name, with separators between them. The hash is forty bytes long; each
/// of the others ends at the first blank or zero byte. Whatever follows the
/// name is not read. The result is the name and the hash.
pub open spec fn ls_tree_fields(record: Seq<u8>) -> Result<(Seq<u8>, Seq<u8>), ParseError> {
    let mode_end = word_end(record, 0);
    let kind = spaces_end(record, mode_end);
    let kind_end = word_end(record, kind);
    let hash = spaces_end(record, kind_end);
    let hash_end = hash + 40;
    let name = spaces_end(record, hash_end);
    let name_end = word_end(record, name);
    if mode_end == 0 {
        Err(ParseError { kind: ErrorKind::IsNot, at: 0 })
    } else if kind == mode_end {
        Err(ParseError { kind: ErrorKind::Space, at: mode_end as usize })
    } else if kind_end == kind {
        Err(ParseError { kind: ErrorKind::IsNot, at: kind as usize })
    } else if hash == kind_end {
        Err(ParseError { kind: ErrorKind::Space, at: kind_end as usize })
    } else if record.len() - hash < 40 {
        Err(ParseError { kind: ErrorKind::Eof, at: hash as usize })
    } else if name == hash_end {
        Err(ParseError { kind: ErrorKind::Space, at: hash_end as usize })
    } else if name_end == name {
        Err(ParseError { kind: ErrorKind::IsNot, at: name as usize })
    } else {
        Ok((record.subrange(name, name_end), record.subrange(hash, hash_end)))
    }
}

/// Parses one record of the status.
pub fn parse_status(i: &[u8]) -> (r: Result<(Vec<u8>, u8, u8), ParseError>)
    ensures
        match r {
            Ok((filename, x, y)) => status_fields(i@) == Ok::<(Seq<u8>, u8, u8), ParseError>(
                (filename@, x, y),
            ),
            Err(error) => status_fields(i@) == Err::<(Seq<u8>, u8, u8), ParseError>(error),
        },
{
    if i.len() < 2 {
        return Err(ParseError { kind: ErrorKind::Eof, at: i.len() });
    }
    let x = i[0];
    let y = i[1];
    let name = space1(i, 2);
    if name == 2 {
        return Err(ParseError { kind: ErrorKind::Space, at: 2 });
    }
    let end = non_space(i, name);
    if end == name {
        return Err(ParseError { kind: ErrorKind::IsNot, at: name });
    }
    Ok((copy_range(i, name, end), x, y))
}

/// Parses one record of the tree listing.
pub fn parse_ls_tree(i: &[u8]) -> (r: Result<(Vec<u8>, Vec<u8>), ParseError>)
    ensures
        match r {
            Ok((filename, hash)) => ls_tree_fields(i@) == Ok::<(Seq<u8>, Seq<u8>), ParseError>(
                (filename@, hash@),
            ),
            Err(error) => ls_tree_fields(i@) == Err::<(Seq<u8>, Seq<u8>), ParseError>(error),
        },
{
    let mode_end = non_space(i, 0);
    if mode_end == 0 {
        return Err(ParseError { kind: ErrorKind::IsNot, at: 0 });
    }
    let kind = space1(i, mode_end);
    if kind == mode_end {
        return Err(ParseError { kind: ErrorKind::Space, at: mode_end });
    }
    let kind_end = non_space(i, kind);
    if kind_end == kind {
        return Err(ParseError { kind: ErrorKind::IsNot, at: kind });
    }
    let start = space1(i, kind_end);
    if start == kind_end {
        return Err(ParseError { kind: ErrorKind::Space, at: kind_end });
    }
    let Some(hash_end) = hash(i, start) else {
        return Err(ParseError { kind: ErrorKind::Eof, at: start });
    };
    let name = space1(i, hash_end);
    if name == hash_end {
        return Err(ParseError { kind: ErrorKind::Space, at: hash_end });
    }
    let name_end = non_space(i, name);
    if name_end == name {
        return Err(ParseError { kind: ErrorKind::IsNot, at: name });
    }
    Ok((copy_range(i, name, name_end), copy_range(i, start, hash_end)))
}

/// The hash of one file.
#[derive(Debug, PartialEq, Eq)]
pub struct GitHash {
    pub path: Vec<u8>,
    pub hash: Vec<u8>,
}

/// The hashes of the files of a package, by the path of the file.
#[derive(Debug)]
pub struct GitHashes {
    pub entries: Vec<GitHash>,
}

/// The hashes that a list of entries gives: a later entry for a path
/// replaces an earlier one.
pub open spec fn hashes_of(entries: Seq<GitHash>) -> Map<Seq<u8>, Seq<u8>>
    decreases entries.len(),
{
    if entries.len() == 0 {
        Map::empty()
    } else {
        hashes_of(entries.drop_last()).insert(entries.last().path@, entries.last().hash@)
    }
}

impl View for GitHashes {
    type V = Map<Seq<u8>, Seq<u8>>;

    open spec fn view(&self) -> Map<Seq<u8>, Seq<u8>> {
        hashes_of(self.entries@)
    }
}

/// Taking out an entry for a path does not change the hashes of the other
/// paths.
proof fn lemma_hashes_without_entry(entries: Seq<GitHash>, index: int)
    requires
        0 <= index < entries.len(),
    ensures
        hashes_of(entries.remove(index)).remove(entries[index].path@) == hashes_of(
            entries,
        ).remove(entries[index].path@),
    decreases entries.len(),
{
    let path = entries[index].path@;
    if index == entries.len() - 1 {
        assert(entries.remove(index) =~= entries.drop_last());
        assert(hashes_of(entries.drop_last()).remove(path) =~= hashes_of(entries).remove(path));
    } else {
        lemma_hashes_without_entry(entries.drop_last(), index);
        assert(entries.remove(index).drop_last() =~= entries.drop_last().remove(index));
        assert(entries.remove(index).last() == entries.last());
        let shorter = hashes_of(entries.drop_last().remove(index));
        let longer = hashes_of(entries.drop_last());
        let last = entries.last();
        assert(hashes_of(entries.remove(index)) == shorter.insert(last.path@, last.hash@));
        if last.path@ == path {
            assert(shorter.insert(last.path@, last.hash@).remove(path) =~= shorter.remove(path));
            assert(longer.insert(last.path@, last.hash@).remove(path) =~= longer.remove(path));
        } else {
            assert(shorter.insert(last.path@, last.hash@).remove(path) =~= shorter.remove(
                path,
            ).insert(last.path@, last.hash@));
            assert(longer.insert(last.path@, last.hash@).remove(path) =~= longer.remove(
                path,
            ).insert(last.path@, last.hash@));
        }
    }
}

/// Entries of which none is for a path give no hash for the path.
proof fn lemma_hashes_hold_entries_only(entries: Seq<GitHash>, path: Seq<u8>)
    requires
        forall|j: int| 0 <= j < entries.len() ==> (#[trigger] entries[j]).path@ != path,
    ensures
        !hashes_of(entries).contains_key(path),
    decreases entries.len(),
{
    if entries.len() > 0 {
        assert(entries.drop_last().len() < entries.len());
        assert forall|j: int| 0 <= j < entries.drop_last().len() implies (
        #[trigger] entries.drop_last()[j]).path@ != path by {
            assert(entries.drop_last()[j] == entries[j]);
        }
        lemma_hashes_hold_entries_only(entries.drop_last(), path);
        assert(entries[entries.len() - 1].path@ != path);
    }
}

impl GitHashes {
    /// No hashes.
    pub fn new() -> (r: Self)
        ensures
            r@ == Map::<Seq<u8>, Seq<u8>>::empty(),
    {
        GitHashes { entries: Vec::new() }
    }

    /// Sets the hash of a path.
    pub fn insert(&mut self, path: Vec<u8>, hash: Vec<u8>)
        ensures
            final(self)@ == old(self)@.insert(path@, hash@),
    {
        self.entries.push(GitHash { path, hash });
        assert(self.entries@.drop_last() =~= old(self).entries@);
    }

    /// Forgets the hash of a path.
    pub fn remove(&mut self, path: &[u8])
        ensures
            final(self)@ == old(self)@.remove(path@),
    {
        let mut i: usize = 0;
        while i < self.entries.len()
            invariant
                i <= self.entries@.len(),
                hashes_of(self.entries@).remove(path@) == old(self)@.remove(path@),
                forall|j: int| 0 <= j < i ==> (#[trigger] self.entries@[j]).path@ != path@,
            decreases self.entries@.len() - i,
        {
            if same_bytes(self.entries[i].path.as_slice(), path) {
                proof {
                    lemma_hashes_without_entry(self.entries@, i as int);
                }
                let _ = self.entries.remove(i);
            } else {
                i += 1;
            }
        }
        proof {
            lemma_hashes_hold_entries_only(self.entries@, path@);
            assert(hashes_of(self.entries@).remove(path@) =~= hashes_of(self.entries@));
        }
    }

    /// The hash of a path, where there is one.
    pub fn get(&self, path: &[u8]) -> (r: Option<&Vec<u8>>)
        ensures
            match r {
                Some(hash) => self@.contains_key(path@) && self@[path@] == hash@,
                None => !self@.contains_key(path@),
            },
    {
        let mut i: usize = self.entries.len();
        assert(self.entries@.take(i as int) =~= self.entries@);
        while i > 0
            invariant
                i <= self.entries@.len(),
                hashes_of(self.entries@.take(i as int)).contains_key(path@) == self@.contains_key(
                    path@,
                ),
                self@.contains_key(path@) ==> hashes_of(self.entries@.take(i as int))[path@]
                    == self@[path@],
            decreases i,
        {
            proof {
                assert(self.entries@.take(i as int).drop_last() =~= self.entries@.take(i - 1));
                assert(self.entries@.take(self.entries@.len() as int) =~= self.entries@);
            }
            i -= 1;
            if same_bytes(self.entries[i].path.as_slice(), path) {
                return Some(&self.entries[i].hash);
            }
        }
        proof {
            assert(self.entries@.take(self.entries@.len() as int) =~= self.entries@);
        }
        None
    }
}

/// A record ends behind the place at which it starts.
pub proof fn lemma_record_end_is_ahead(input: Seq<u8>, from: int)
    requires
        0 <= from < input.len(),
    ensures
        from < record_end(input, from) <= input.len(),
    decreases input.len() - from,
{
    if input[from] != 0 {
        if from + 1 < input.len() {
            lemma_record_end_is_ahead(input, from + 1);
        } else {
            assert(record_end(input, from + 1) == from + 1);
        }
    }
}

/// The hashes that the tree listing gives from the place `from` on, added
/// to the hashes found before: each record gives the hash of one file. The
/// first record that cannot be parsed decides the error.
pub open spec fn ls_tree_hashes(
    output: Seq<u8>,
    from: int,
    hashes: Map<Seq<u8>, Seq<u8>>,
) -> Result<Map<Seq<u8>, Seq<u8>>, ParseError>
    decreases output.len() - from,
{
    if 0 <= from < output.len() {
        let end = record_end(output, from);
        match ls_tree_fields(output.subrange(from, end)) {
            Err(error) => Err(error),
            Ok((path, hash)) => {
                proof {
                    lemma_record_end_is_ahead(output, from);
                }
                ls_tree_hashes(output, end, hashes.insert(path, hash))
            },
        }
    } else {
        Ok(hashes)
    }
}

/// What the status makes of the hashes.
pub struct StatusOutcome {
    /// The hashes that are left.
    pub hashes: Map<Seq<u8>, Seq<u8>>,
    /// The files that are to be hashed, in the order of the status.
    pub to_hash: Seq<Seq<u8>>,
    /// The error at which reading the status stopped, if it did.
    pub error: Option<ParseError>,
}

/// Whether a path lies inside the package: it starts with the path of the
/// package.
pub open spec fn is_inside(path: Seq<u8>, package: Seq<u8>) -> bool {
    package.len() <= path.len() && path.subrange(0, package.len() as int) == package
}

/// What the status makes of the hashes from the place `from` on. Each
/// record names a file by its path in the repository. A file outside the
/// package is passed over. A file of the package goes by its path inside
/// the package: if it is deleted, it loses its hash, and else it is to be
/// hashed. Reading stops at the first record that cannot be parsed.
pub open spec fn status_outcome(
    output: Seq<u8>,
    package: Seq<u8>,
    from: int,
    hashes: Map<Seq<u8>, Seq<u8>>,
    to_hash: Seq<Seq<u8>>,
) -> StatusOutcome
    decreases output.len() - from,
{
    if 0 <= from < output.len() {
        let end = record_end(output, from);
        match status_fields(output.subrange(from, end)) {
            Err(error) => StatusOutcome { hashes, to_hash, error: Some(error) },
            Ok((path, x, y)) => {
                proof {
                    lemma_record_end_is_ahead(output, from);
                }
                let inside = path.subrange(package.len() as int, path.len() as int);
                if !is_inside(path, package) {
                    status_outcome(output, package, end, hashes, to_hash)
                } else if x == 68 || y == 68 {
                    status_outcome(output, package, end, hashes.remove(inside), to_hash)
                } else {
                    status_outcome(output, package, end, hashes, to_hash.push(inside))
                }
            },
        }
    } else {
        StatusOutcome { hashes, to_hash, error: None }
    }
}

/// The paths of a list, as values.
pub open spec fn paths_of(paths: Seq<Vec<u8>>) -> Seq<Seq<u8>> {
    Seq::new(paths.len(), |i: int| paths[i]@)
}

/// The end of the line that starts at `from`: the place of the next line
/// feed, or the end of the input where there is none.
pub open spec fn line_end(input: Seq<u8>, from: int) -> int
    decreases input.len() - from,
{
    if 0 <= from < input.len() && input[from] != 10 {
        line_end(input, from + 1)
    } else {
        from
    }
}

/// What the hashes of objects make of the hashes of the files.
pub struct ObjectsOutcome {
    /// The hashes, with those of the files that were read.
    pub hashes: Map<Seq<u8>, Seq<u8>>,
    /// The error at which reading stopped, if it did.
    pub error: Option<ParseError>,
}

/// What the hashes of objects make of the hashes of the files, from the
/// file `index` and the place `from` on: the lines of the output hold the
/// hashes of the files in their order, forty bytes at the start of each
/// line. Reading stops with an error at the first file whose line holds
/// fewer.
pub open spec fn objects_outcome(
    files: Seq<Seq<u8>>,
    index: int,
    output: Seq<u8>,
    from: int,
    hashes: Map<Seq<u8>, Seq<u8>>,
) -> ObjectsOutcome
    decreases files.len() - index,
{
    if 0 <= index < files.len() {
        let end = line_end(output, from);
        let next = if end < output.len() {
            end + 1
        } else {
            end
        };
        if end - from < 40 {
            ObjectsOutcome { hashes, error: Some(ParseError { kind: ErrorKind::Eof, at: 0 }) }
        } else {
            objects_outcome(
                files,
                index + 1,
                output,
                next,
                hashes.insert(files[index], output.subrange(from, from + 40)),
            )
        }
    } else {
        ObjectsOutcome { hashes, error: None }
    }
}

/// Reads the tree listing of a package, as `git ls-tree -r -z HEAD` prints
/// it: the hash of each file that is committed, by its path.
pub fn git_ls_tree(output: &[u8]) -> (r: Result<GitHashes, ParseError>)
    ensures
        match r {
            Ok(hashes) => ls_tree_hashes(output@, 0, Map::empty()) == Ok::<
                Map<Seq<u8>, Seq<u8>>,
                ParseError,
            >(hashes@),
            Err(error) => ls_tree_hashes(output@, 0, Map::empty()) == Err::<
                Map<Seq<u8>, Seq<u8>>,
                ParseError,
            >(error),
        },
{
    let mut hashes = GitHashes::new();
    let mut from: usize = 0;
    while from < output.len()
        invariant
            from <= output@.len(),
            ls_tree_hashes(output@, from as int, hashes@) == ls_tree_hashes(
                output@,
                0,
                Map::empty(),
            ),
        decreases output@.len() - from,
    {
        let end = read_until_zero(output, from);
        let buffer = copy_range(output, from, end);
        match parse_ls_tree(buffer.as_slice()) {
            Err(error) => {
                return Err(error);
            },
            Ok((filename, hash)) => {
                hashes.insert(filename, hash);
            },
        }
        from = end;
    }
    Ok(hashes)
}

/// The path inside the package, where the path lies inside it.
fn strip_package(path: &[u8], package: &[u8]) -> (r: Option<Vec<u8>>)
    ensures
        match r {
            Some(inside) => is_inside(path@, package@) && inside@ == path@.subrange(
                package@.len() as int,
                path@.len() as int,
            ),
            None => !is_inside(path@, package@),
        },
{
    if package.len() > path.len() {
        return None;
    }
    let front = copy_range(path, 0, package.len());
    if !same_bytes(front.as_slice(), package) {
        return None;
    }
    Some(copy_range(path, package.len(), path.len()))
}

/// Reads the status of a repository, as `git status --untracked-files
/// --no-renames -z` prints it, for the package whose path in the
/// repository, with the `/` at its end, is `package`: forgets the hash of
/// each file of the package that is deleted, and returns the other files of
/// the package that the status names, which are to be hashed. The files go
/// by their paths inside the package.
pub fn append_git_status(output: &[u8], package: &[u8], hashes: &mut GitHashes) -> (r: Result<
    Vec<Vec<u8>>,
    ParseError,
>)
    ensures
        final(hashes)@ == status_outcome(output@, package@, 0, old(hashes)@, Seq::empty()).hashes,
        match r {
            Ok(to_hash) => {
                let outcome = status_outcome(output@, package@, 0, old(hashes)@, Seq::empty());
                outcome.error is None && outcome.to_hash == paths_of(to_hash@)
            },
            Err(error) => status_outcome(
                output@,
                package@,
                0,
                old(hashes)@,
                Seq::empty(),
            ).error == Some(error),
        },
{
    let ghost outcome = status_outcome(output@, package@, 0, old(hashes)@, Seq::empty());
    let mut to_hash: Vec<Vec<u8>> = Vec::new();
    let mut from: usize = 0;
    assert(paths_of(to_hash@) =~= Seq::<Seq<u8>>::empty());
    while from < output.len()
        invariant
            from <= output@.len(),
            outcome == status_outcome(output@, package@, 0, old(hashes)@, Seq::empty()),
            outcome == status_outcome(
                output@,
                package@,
                from as int,
                hashes@,
                paths_of(to_hash@),
            ),
        decreases output@.len() - from,
    {
        let end = read_until_zero(output, from);
        let buffer = copy_range(output, from, end);
        match parse_status(buffer.as_slice()) {
            Err(error) => {
                return Err(error);
            },
            Ok((filename, x, y)) => {
                if let Some(path) = strip_package(filename.as_slice(), package) {
                    let is_delete = x == 68u8 || y == 68u8;
                    if is_delete {
                        hashes.remove(path.as_slice());
                    } else {
                        let ghost before = paths_of(to_hash@);
                        to_hash.push(path);
                        assert(paths_of(to_hash@) =~= before.push(path@));
                    }
                }
            },
        }
        from = end;
    }
    Ok(to_hash)
}

/// Finds the end of the line that starts at `from`.
fn read_line(input: &[u8], from: usize) -> (end: usize)
    requires
        from <= input@.len(),
    ensures
        end == line_end(input@, from as int),
        from <= end <= input@.len(),
{
    let mut end: usize = from;
    while end < input.len() && input[end] != 10u8
        invariant
            from <= end <= input@.len(),
            line_end(input@, end as int) == line_end(input@, from as int),
        decreases input@.len() - end,
    {
        end += 1;
    }
    end
}

/// Reads the hashes of the given files, as `git hash-object --stdin-paths`
/// prints them when it is given the files in their order: one hash on each
/// line.
pub fn git_hash_object(files_to_hash: &Vec<Vec<u8>>, output: &[u8], hashes: &mut GitHashes) -> (r:
    Result<(), ParseError>)
    ensures
        final(hashes)@ == objects_outcome(
            paths_of(files_to_hash@),
            0,
            output@,
            0,
            old(hashes)@,
        ).hashes,
        match r {
            Ok(()) => objects_outcome(
                paths_of(files_to_hash@),
                0,
                output@,
                0,
                old(hashes)@,
            ).error is None,
            Err(error) => objects_outcome(
                paths_of(files_to_hash@),
                0,
                output@,
                0,
                old(hashes)@,
            ).error == Some(error),
        },
{
    let ghost files = paths_of(files_to_hash@);
    let ghost outcome = objects_outcome(files, 0, output@, 0, old(hashes)@);
    let mut from: usize = 0;
    let mut index: usize = 0;
    while index < files_to_hash.len()
        invariant
            index <= files_to_hash@.len(),
            from <= output@.len(),
            files == paths_of(files_to_hash@),
            outcome == objects_outcome(files, 0, output@, 0, old(hashes)@),
            outcome == objects_outcome(files, index as int, output@, from as int, hashes@),
        decreases files_to_hash@.len() - index,
    {
        let end = read_line(output, from);
        if end - from < 40 {
            return Err(ParseError { kind: ErrorKind::Eof, at: 0 });
        }
        let file = &files_to_hash[index];
        let path = copy_range(file.as_slice(), 0, file.len());
        assert(path@ =~= files[index as int]);
        hashes.insert(path, copy_range(output, from, from + 40));
        from = if end < output.len() {
            end + 1
        } else {
            end
        };
        index += 1;
    }
    Ok(())
}

/// What the three outputs of git make of the hashes of a package: the
/// hashes of the committed files, without those that the status reports as
/// deleted, and with the hashes of the files that the status reports
/// otherwise. The first output that cannot be read decides the error.
pub open spec fn package_deps(
    ls_tree: Seq<u8>,
    status: Seq<u8>,
    package: Seq<u8>,
    objects: Seq<u8>,
) -> Result<Map<Seq<u8>, Seq<u8>>, ParseError> {
    match ls_tree_hashes(ls_tree, 0, Map::empty()) {
        Err(error) => Err(error),
        Ok(committed) => {
            let changed = status_outcome(status, package, 0, committed, Seq::empty());
            let hashed = objects_outcome(changed.to_hash, 0, objects, 0, changed.hashes);
            match (changed.error, hashed.error) {
                (Some(error), _) => Err(error),
                (None, Some(error)) => Err(error),
                (None, None) => Ok(hashed.hashes),
            }
        },
    }
}

/// The hashes of the files of a package: those of its committed files that
/// the status does not report as deleted, and those of the files that the
/// status reports otherwise. `ls_tree` is what `git ls-tree` printed for
/// the package, `status` what `git status` printed for the repository,
/// `package` the path of the package in the repository with the `/` at its
/// end, and `objects` what `git hash-object` printed for the files that
/// [`append_git_status`] returns. Only a package without input patterns
/// can be asked for.
pub fn get_package_deps(
    ls_tree: &[u8],
    status: &[u8],
    package: &[u8],
    objects: &[u8],
    inputs: &[&str],
) -> (r: Result<GitHashes, ParseError>)
    requires
        inputs@.len() == 0,
    ensures
        match r {
            Ok(hashes) => package_deps(ls_tree@, status@, package@, objects@) == Ok::<
                Map<Seq<u8>, Seq<u8>>,
                ParseError,
            >(hashes@),
            Err(error) => package_deps(ls_tree@, status@, package@, objects@) == Err::<
                Map<Seq<u8>, Seq<u8>>,
                ParseError,
            >(error),
        },
{
    let mut hashes = git_ls_tree(ls_tree)?;
    let to_hash = append_git_status(status, package, &mut hashes)?;
    git_hash_object(&to_hash, objects, &mut hashes)?;
    Ok(hashes)
}

} // verus!
