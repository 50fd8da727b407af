//! The schema index and the resolution of one type name.
//!
//! The index maps fully-qualified type names (`package/msg/Type`) to what
//! was obtained from each schema's location: its text, or the reason why it
//! could not be read. It is filled once and then only read.

use vstd::prelude::*;
use vstd::string::StringExecFns;
use crate::order::{
    ascending, chars_precede, lemma_ascending_distinct, lemma_precedes_irreflexive,
    lemma_precedes_total, lemma_precedes_transitive, precedes,
};
use crate::text::{
    from_chars, push_all, same_chars, split, split_on, subvec, texts, to_chars, trim, trimmed,
};

verus! {

// ----------------------------------------------------------------------
// Sources and failures
// ----------------------------------------------------------------------

/// What reading a schema's location gave.
#[derive(Debug, Clone, PartialEq, Eq)]
pub enum Source {
    /// The text found there, as it was read.
    Text(String),
    /// The location could not be read; the reason, in words.
    Unreadable(String),
}

/// The model of a [`Source`].
pub enum SourceView {
    Text(Seq<char>),
    Unreadable(Seq<char>),
}

impl View for Source {
    type V = SourceView;

    open spec fn view(&self) -> SourceView {
        match self {
            Source::Text(text) => SourceView::Text(text@),
            Source::Unreadable(reason) => SourceView::Unreadable(reason@),
        }
    }
}

/// Why a type could not be resolved.
#[derive(Debug, Clone, PartialEq, Eq)]
pub enum ResolveError {
    /// The index holds no entry for this type name.
    NotFound { typename: String },
    /// The index holds an entry for this type name, but its source could
    /// not be read.
    IoError { typename: String, reason: String },
}

/// The model of a [`ResolveError`].
pub enum Failure {
    NotFound { typename: Seq<char> },
    IoError { typename: Seq<char>, reason: Seq<char> },
}

impl View for ResolveError {
    type V = Failure;

    open spec fn view(&self) -> Failure {
        match self {
            ResolveError::NotFound { typename } => Failure::NotFound { typename: typename@ },
            ResolveError::IoError { typename, reason } => Failure::IoError {
                typename: typename@,
                reason: reason@,
            },
        }
    }
}

/// The text that the message of a [`Failure`] is made of.
pub open spec fn failure_message(f: Failure) -> Seq<char> {
    match f {
        Failure::NotFound { typename } => "Definition not found for: "@ + typename,
        Failure::IoError { typename, reason } => "Cannot read the definition of "@ + typename
            + ": "@ + reason,
    }
}

impl ResolveError {
    /// The error in words. It names the type that could not be resolved.
    pub fn message(&self) -> (r: String)
        ensures
            r@ == failure_message(self@),
    {
        match self {
            ResolveError::NotFound { typename } => {
                String::from_str("Definition not found for: ").concat(typename.as_str())
            },
            ResolveError::IoError { typename, reason } => {
                String::from_str("Cannot read the definition of ").concat(
                    typename.as_str(),
                ).concat(": ").concat(reason.as_str())
            },
        }
    }
}

/// What resolving `typename` in `index` gives: the trimmed text of its
/// entry; `NotFound` where there is no entry; `IoError` where the entry's
/// source could not be read.
pub open spec fn resolved(index: Map<Seq<char>, SourceView>, typename: Seq<char>) -> Result<
    Seq<char>,
    Failure,
> {
    if !index.dom().contains(typename) {
        Err(Failure::NotFound { typename })
    } else {
        match index[typename] {
            SourceView::Text(text) => Ok(trimmed(text)),
            SourceView::Unreadable(reason) => Err(Failure::IoError { typename, reason }),
        }
    }
}

/// The model of a result that holds a text or a [`ResolveError`].
pub open spec fn outcome(r: Result<String, ResolveError>) -> Result<Seq<char>, Failure> {
    match r {
        Ok(text) => Ok(text@),
        Err(e) => Err(e@),
    }
}

/// A copy of a source.
pub fn copy_source(source: &Source) -> (r: Source)
    ensures
        r@ == source@,
{
    match source {
        Source::Text(text) => Source::Text(text.clone()),
        Source::Unreadable(reason) => Source::Unreadable(reason.clone()),
    }
}

// ----------------------------------------------------------------------
// File names
// ----------------------------------------------------------------------

/// The name of the message that a file of the given name defines: what
/// stands before a final `.msg`, if the name ends in `.msg` and something
/// stands before it.
pub open spec fn message_stem(file_name: Seq<char>) -> Option<Seq<char>> {
    let n = file_name.len() - 4;
    if n > 0 && file_name[n] == '.' && file_name[n + 1] == 'm' && file_name[n + 2] == 's'
        && file_name[n + 3] == 'g' {
        Some(file_name.take(n))
    } else {
        None
    }
}

/// The key under which the message `stem` of `package` is indexed.
pub open spec fn message_key(package: Seq<char>, stem: Seq<char>) -> Seq<char> {
    package + "/msg/"@ + stem
}

/// The index `index` after the files of one message directory of `package`
/// were added to it, in the order given: each file whose name ends in
/// `.msg` becomes the entry of its message and replaces an earlier entry of
/// the same name; other files are passed over.
pub open spec fn with_files(
    index: Map<Seq<char>, SourceView>,
    package: Seq<char>,
    files: Seq<(Seq<char>, SourceView)>,
) -> Map<Seq<char>, SourceView>
    decreases files.len(),
{
    if files.len() == 0 {
        index
    } else {
        let before = with_files(index, package, files.drop_last());
        match message_stem(files.last().0) {
            Some(stem) => before.insert(message_key(package, stem), files.last().1),
            None => before,
        }
    }
}

/// The models of a directory listing.
pub open spec fn file_views(files: Seq<(String, Source)>) -> Seq<(Seq<char>, SourceView)> {
    Seq::new(files.len(), |i: int| (files[i].0@, files[i].1@))
}

fn stem_of(file_name: &Vec<char>) -> (r: Option<Vec<char>>)
    ensures
        match r {
            Some(stem) => message_stem(file_name@) == Some(stem@),
            None => message_stem(file_name@) is None,
        },
{
    let len = file_name.len();
    if len > 4 {
        let n = len - 4;
        if file_name[n] == '.'
            && file_name[n + 1] == 'm'
            && file_name[n + 2] == 's'
            && file_name[n + 3] == 'g'
        {
            return Some(subvec(file_name, 0, n));
        }
    }
    None
}

/// The message that a file of the given name defines, if it is a message
/// file: `Name` for `Name.msg`.
pub fn message_name(file_name: &str) -> (r: Option<String>)
    ensures
        match r {
            Some(stem) => message_stem(file_name@) == Some(stem@),
            None => message_stem(file_name@) is None,
        },
{
    let name = to_chars(file_name);
    match stem_of(&name) {
        Some(stem) => Some(from_chars(&stem)),
        None => None,
    }
}

/// The directories that a search path names: the runs between its colons,
/// in their order, empty ones among them.
pub fn search_prefixes(search_path: &str) -> (r: Vec<String>)
    ensures
        texts(r@) == split_on(search_path@, ':'),
{
    let list = to_chars(search_path);
    let runs = split(&list, ':');
    let mut out: Vec<String> = Vec::new();
    let mut i: usize = 0;
    while i < runs.len()
        invariant
            i <= runs.len(),
            out@.len() == i,
            forall|j: int| 0 <= j < i ==> (#[trigger] out@[j])@ == runs@[j]@,
        decreases runs.len() - i,
    {
        out.push(from_chars(&runs[i]));
        i += 1;
    }
    proof {
        assert(texts(out@) =~= crate::text::views(runs@));
    }
    out
}

// ----------------------------------------------------------------------
// The index
// ----------------------------------------------------------------------

#[derive(Debug)]
struct Entry {
    name: Vec<char>,
    source: Source,
}

/// The schema index: an ordered mapping from fully-qualified type names to
/// sources, together with the operations that resolve and flatten.
///
/// Its model is a finite map. Its names are enumerated in ascending
/// lexicographic order.
#[derive(Debug)]
pub struct CentralSchemaResolver {
    entries: Vec<Entry>,
}

impl View for CentralSchemaResolver {
    type V = Map<Seq<char>, SourceView>;

    closed spec fn view(&self) -> Map<Seq<char>, SourceView> {
        Map::new(
            |k: Seq<char>| self.names().contains(k),
            |k: Seq<char>| self.sources()[self.names().index_of(k)],
        )
    }
}

impl Default for CentralSchemaResolver {
    /// An index without entries.
    fn default() -> (r: Self)
        ensures
            r.wf(),
            r@ == Map::<Seq<char>, SourceView>::empty(),
    {
        CentralSchemaResolver::new()
    }
}

impl CentralSchemaResolver {
    /// The names of the index, in the order in which it enumerates them.
    pub closed spec fn names(&self) -> Seq<Seq<char>> {
        Seq::new(self.entries@.len(), |i: int| self.entries@[i].name@)
    }

    spec fn sources(&self) -> Seq<SourceView> {
        Seq::new(self.entries@.len(), |i: int| self.entries@[i].source@)
    }

    /// The invariant of the index: its names are in strictly ascending
    /// order. Every operation keeps it.
    pub closed spec fn wf(&self) -> bool {
        ascending(self.names())
    }

    /// What the invariant says of the model: the names are ascending, they
    /// are exactly the keys of the map, and there are finitely many.
    pub proof fn lemma_names(&self)
        requires
            self.wf(),
        ensures
            ascending(self.names()),
            self.names().no_duplicates(),
            self.names().to_set() == self@.dom(),
            self@.dom().finite(),
            self@.dom().len() == self.names().len(),
    {
        lemma_ascending_distinct(self.names());
        assert(self.names().to_set() =~= self@.dom());
        vstd::seq_lib::seq_to_set_is_finite(self.names());
        self.names().unique_seq_to_set();
    }

    proof fn lemma_entry(&self, i: int)
        requires
            self.wf(),
            0 <= i < self.names().len(),
        ensures
            self@.dom().contains(self.names()[i]),
            self@[self.names()[i]] == self.sources()[i],
    {
        lemma_ascending_distinct(self.names());
        let k = self.names()[i];
        assert(self.names().contains(k));
        let j = self.names().index_of(k);
        assert(self.names()[j] == k);
        assert(j == i);
    }

    /// An index without entries.
    pub fn new() -> (r: Self)
        ensures
            r.wf(),
            r@ == Map::<Seq<char>, SourceView>::empty(),
    {
        let r = CentralSchemaResolver { entries: Vec::new() };
        proof {
            assert(r.names() =~= Seq::<Seq<char>>::empty());
            assert(r@ =~= Map::<Seq<char>, SourceView>::empty());
        }
        r
    }

    /// The number of entries.
    pub fn len(&self) -> (n: usize)
        requires
            self.wf(),
        ensures
            n == self@.dom().len(),
    {
        proof {
            self.lemma_names();
        }
        self.entries.len()
    }

    /// Whether the index has no entry.
    pub fn is_empty(&self) -> (r: bool)
        requires
            self.wf(),
        ensures
            r == (self@.dom().len() == 0),
            r == (self@ == Map::<Seq<char>, SourceView>::empty()),
    {
        proof {
            self.lemma_names();
            if self.entries@.len() == 0 {
                assert(self@ =~= Map::<Seq<char>, SourceView>::empty());
            } else {
                self.lemma_entry(0);
            }
        }
        self.entries.len() == 0
    }

    /// The names of the index, in ascending order.
    pub fn type_names(&self) -> (r: Vec<String>)
        requires
            self.wf(),
        ensures
            r@.len() == self.names().len(),
            forall|i: int| 0 <= i < r@.len() ==> (#[trigger] r@[i])@ == self.names()[i],
    {
        let mut out: Vec<String> = Vec::new();
        let mut i: usize = 0;
        while i < self.entries.len()
            invariant
                i <= self.entries.len(),
                out@.len() == i,
                forall|j: int| 0 <= j < i ==> (#[trigger] out@[j])@ == self.names()[j],
            decreases self.entries.len() - i,
        {
            let name = from_chars(&self.entries[i].name);
            out.push(name);
            i += 1;
        }
        out
    }

    /// The first position whose name does not come before `key`.
    fn lower_bound(&self, key: &Vec<char>) -> (pos: usize)
        requires
            self.wf(),
        ensures
            pos <= self.names().len(),
            forall|i: int| 0 <= i < pos ==> precedes(#[trigger] self.names()[i], key@),
            forall|i: int|
                pos <= i < self.names().len() ==> !precedes(#[trigger] self.names()[i], key@),
    {
        let mut lo: usize = 0;
        let mut hi: usize = self.entries.len();
        while lo < hi
            invariant
                self.wf(),
                lo <= hi <= self.entries.len(),
                forall|i: int| 0 <= i < lo ==> precedes(#[trigger] self.names()[i], key@),
                forall|i: int|
                    hi <= i < self.names().len() ==> !precedes(#[trigger] self.names()[i], key@),
            decreases hi - lo,
        {
            let mid = lo + (hi - lo) / 2;
            let ghost m = self.names()[mid as int];
            if chars_precede(&self.entries[mid].name, key) {
                proof {
                    assert forall|i: int| 0 <= i < mid + 1 implies precedes(
                        #[trigger] self.names()[i],
                        key@,
                    ) by {
                        if i < mid {
                            assert(precedes(self.names()[i], self.names()[mid as int]));
                            lemma_precedes_transitive(self.names()[i], m, key@);
                        }
                    }
                }
                lo = mid + 1;
            } else {
                proof {
                    assert forall|i: int| mid <= i < self.names().len() implies !precedes(
                        #[trigger] self.names()[i],
                        key@,
                    ) by {
                        if i > mid && precedes(self.names()[i], key@) {
                            assert(precedes(self.names()[mid as int], self.names()[i]));
                            lemma_precedes_transitive(m, self.names()[i], key@);
                        }
                    }
                }
                hi = mid;
            }
        }
        lo
    }

    /// Where `lower_bound` stopped at a name other than `key`, the index
    /// has no entry for `key`.
    proof fn lemma_absent(&self, key: Seq<char>, pos: int)
        requires
            self.wf(),
            0 <= pos <= self.names().len(),
            forall|i: int| 0 <= i < pos ==> precedes(#[trigger] self.names()[i], key),
            forall|i: int|
                pos <= i < self.names().len() ==> !precedes(#[trigger] self.names()[i], key),
            pos < self.names().len() ==> self.names()[pos] != key,
        ensures
            !self@.dom().contains(key),
            forall|i: int| pos <= i < self.names().len() ==> precedes(key, #[trigger] self.names()[i]),
    {
        lemma_precedes_irreflexive(key);
        assert forall|i: int| pos <= i < self.names().len() implies precedes(
            key,
            #[trigger] self.names()[i],
        ) by {
            let n = self.names()[i];
            lemma_precedes_total(key, n);
            if n == key {
                assert(i > pos);
                assert(precedes(self.names()[pos], self.names()[i]));
            }
        }
        if self.names().contains(key) {
            let i = self.names().index_of(key);
            assert(self.names()[i] == key);
        }
    }

    /// Adds an entry, or replaces the entry of the same name.
    pub fn register(&mut self, typename: &str, source: Source)
        requires
            old(self).wf(),
        ensures
            final(self).wf(),
            final(self)@ == old(self)@.insert(typename@, source@),
    {
        let key = to_chars(typename);
        self.register_chars(key, source);
    }

    fn register_chars(&mut self, key: Vec<char>, source: Source)
        requires
            old(self).wf(),
        ensures
            final(self).wf(),
            final(self)@ == old(self)@.insert(key@, source@),
    {
        let pos = self.lower_bound(&key);
        let ghost before = *self;
        let ghost k = key@;
        let ghost s = source@;
        let found = pos < self.entries.len() && same_chars(&self.entries[pos].name, &key);
        if found {
            self.entries[pos] = Entry { name: key, source };
            proof {
                assert(self.names() =~= before.names());
                assert(self.sources() =~= before.sources().update(pos as int, s));
                assert forall|x: Seq<char>| #[trigger]
                    self@.dom().contains(x) <==> before@.insert(k, s).dom().contains(x) by {
                    before.lemma_entry(pos as int);
                }
                assert forall|x: Seq<char>| #[trigger] self@.dom().contains(x) implies self@[x]
                    == before@.insert(k, s)[x] by {
                    let i = self.names().index_of(x);
                    assert(self.names()[i] == x);
                    self.lemma_entry(i);
                    before.lemma_entry(i);
                    before.lemma_entry(pos as int);
                    lemma_ascending_distinct(before.names());
                }
                assert(self@ =~= before@.insert(k, s));
            }
        } else {
            proof {
                before.lemma_absent(k, pos as int);
            }
            self.entries.insert(pos, Entry { name: key, source });
            proof {
                assert(self.names() =~= before.names().insert(pos as int, k));
                assert(self.sources() =~= before.sources().insert(pos as int, s));
                assert forall|i: int, j: int| 0 <= i < j < self.names().len() implies precedes(
                    self.names()[i],
                    self.names()[j],
                ) by {
                    if j < pos {
                        assert(precedes(before.names()[i], before.names()[j]));
                    } else if j == pos {
                        assert(precedes(before.names()[i], k));
                    } else if i < pos {
                        assert(precedes(before.names()[i], before.names()[j - 1]));
                    } else if i == pos {
                        assert(precedes(k, before.names()[j - 1]));
                    } else {
                        assert(precedes(before.names()[i - 1], before.names()[j - 1]));
                    }
                }
                assert forall|x: Seq<char>| #[trigger]
                    self@.dom().contains(x) <==> before@.insert(k, s).dom().contains(x) by {
                    if self.names().contains(x) {
                        let i = self.names().index_of(x);
                        assert(self.names()[i] == x);
                        if i < pos {
                            assert(before.names()[i] == x);
                        } else if i > pos {
                            assert(before.names()[i - 1] == x);
                        }
                    }
                    if before.names().contains(x) {
                        let i = before.names().index_of(x);
                        assert(before.names()[i] == x);
                        if i < pos {
                            assert(self.names()[i] == x);
                        } else {
                            assert(self.names()[i + 1] == x);
                        }
                    }
                    if x == k {
                        assert(self.names()[pos as int] == x);
                    }
                }
                assert forall|x: Seq<char>| #[trigger] self@.dom().contains(x) implies self@[x]
                    == before@.insert(k, s)[x] by {
                    let i = self.names().index_of(x);
                    assert(self.names()[i] == x);
                    self.lemma_entry(i);
                    if i < pos {
                        before.lemma_entry(i);
                    } else if i > pos {
                        before.lemma_entry(i - 1);
                    }
                }
                assert(self@ =~= before@.insert(k, s));
            }
        }
    }

    /// Adds the messages of one message directory of `package`. `files`
    /// lists the directory: each file's name and what reading it gave. A
    /// file named `Name.msg` becomes the entry `package/msg/Name`; other
    /// files are passed over.
    pub fn register_msg_dir(&mut self, package: &str, files: &Vec<(String, Source)>)
        requires
            old(self).wf(),
        ensures
            final(self).wf(),
            final(self)@ == with_files(old(self)@, package@, file_views(files@)),
    {
        let pkg = to_chars(package);
        let sep = to_chars("/msg/");
        let ghost all = file_views(files@);
        let mut i: usize = 0;
        proof {
            assert(all.take(0) =~= Seq::<(Seq<char>, SourceView)>::empty());
        }
        while i < files.len()
            invariant
                i <= files.len(),
                self.wf(),
                pkg@ == package@,
                sep@ == "/msg/"@,
                all == file_views(files@),
                self@ == with_files(old(self)@, package@, all.take(i as int)),
            decreases files.len() - i,
        {
            let name = to_chars(files[i].0.as_str());
            proof {
                assert(all.take(i + 1).drop_last() =~= all.take(i as int));
                assert(all.take(i + 1).last() == all[i as int]);
            }
            match stem_of(&name) {
                Some(stem) => {
                    let mut key = subvec(&pkg, 0, pkg.len());
                    proof {
                        assert(key@ =~= pkg@);
                    }
                    push_all(&mut key, &sep);
                    push_all(&mut key, &stem);
                    let source = copy_source(&files[i].1);
                    self.register_chars(key, source);
                },
                None => {},
            }
            i += 1;
        }
        proof {
            assert(all.take(files.len() as int) =~= all);
        }
    }

    /// The schema text of one type, without the white space around it.
    ///
    /// Fails with `NotFound` where the index has no entry of that name, and
    /// with `IoError` where the entry's source could not be read. Both name
    /// the type.
    pub fn resolve(&self, typename: &str) -> (r: Result<String, ResolveError>)
        requires
            self.wf(),
        ensures
            outcome(r) == resolved(self@, typename@),
    {
        let key = to_chars(typename);
        let pos = self.lower_bound(&key);
        if pos < self.entries.len() && same_chars(&self.entries[pos].name, &key) {
            proof {
                self.lemma_entry(pos as int);
            }
            match &self.entries[pos].source {
                Source::Text(text) => {
                    let chars = to_chars(text.as_str());
                    let body = trim(&chars);
                    Ok(from_chars(&body))
                },
                Source::Unreadable(reason) => Err(
                    ResolveError::IoError {
                        typename: String::from_str(typename),
                        reason: reason.clone(),
                    },
                ),
            }
        } else {
            proof {
                self.lemma_absent(key@, pos as int);
            }
            Err(ResolveError::NotFound { typename: String::from_str(typename) })
        }
    }
}

} // verus!
