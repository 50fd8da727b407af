//! The flattening engine: a root schema followed by every schema it refers
//! to, directly or through others.
//!
//! The walk is depth first and in the order of the field declarations. A
//! type is emitted where it is first met and never again, so a cycle among
//! the schemas ends the walk and a type shared by several fields appears
//! once.

use vstd::prelude::*;
use vstd::hash_set::StringHashSet;
use vstd::seq_lib::seq_to_set_distributes_over_add;
use vstd::set_lib::lemma_len_subset;
use vstd::string::StringExecFns;
use crate::resolver::{outcome, resolved, CentralSchemaResolver, Failure, ResolveError, SourceView};
use crate::text::{
    find, find_space, first_index, first_space, from_chars, lines_of, push_all, replace,
    replaced, split_lines, subvec, texts, to_chars, trim, trimmed, views,
};
use crate::typeref::{custom_reference, reference_chars};

verus! {

// ----------------------------------------------------------------------
// Field declarations
// ----------------------------------------------------------------------

/// The package of a fully-qualified type name: what stands before its first
/// `/`, or the whole name where it holds none.
pub open spec fn package_of(name: Seq<char>) -> Seq<char> {
    name.take(first_index(name, '/'))
}

/// The type word of a line of schema text, if the line declares a field.
///
/// A line that is blank or begins with `#`, once trimmed, declares nothing.
/// Nor does a line of a single word. Otherwise the type word is the first
/// word of the line.
pub open spec fn type_token(line: Seq<char>) -> Option<Seq<char>> {
    let t = trimmed(line);
    if t.len() == 0 || t[0] == '#' {
        None
    } else {
        let end = first_space(t);
        if end < t.len() {
            Some(t.take(end))
        } else {
            None
        }
    }
}

/// The schema that a line of a schema of `package` refers to, if any.
pub open spec fn reference_of(line: Seq<char>, package: Seq<char>) -> Option<Seq<char>> {
    match type_token(line) {
        Some(token) => custom_reference(token, package),
        None => None,
    }
}

fn type_token_chars(line: &Vec<char>) -> (r: Option<Vec<char>>)
    ensures
        match r {
            Some(token) => type_token(line@) == Some(token@),
            None => type_token(line@) is None,
        },
{
    let t = trim(line);
    if t.len() == 0 || t[0] == '#' {
        return None;
    }
    let end = find_space(&t);
    if end < t.len() {
        Some(subvec(&t, 0, end))
    } else {
        None
    }
}

// ----------------------------------------------------------------------
// The walk
// ----------------------------------------------------------------------

/// What a walk found: the types it emitted, in the order of discovery, and
/// the failure that ended it, if one did.
pub struct Trace {
    pub names: Seq<Seq<char>>,
    pub failure: Option<Failure>,
}

/// The number of types of the index that have not been seen.
pub open spec fn unseen(index: Map<Seq<char>, SourceView>, seen: Set<Seq<char>>) -> nat {
    index.dom().difference(seen).len()
}

/// Seeing one more type of the index, and perhaps others, leaves fewer
/// unseen.
pub proof fn lemma_unseen_shrinks(
    index: Map<Seq<char>, SourceView>,
    seen: Set<Seq<char>>,
    name: Seq<char>,
    grown: Set<Seq<char>>,
)
    requires
        index.dom().finite(),
        index.dom().contains(name),
        !seen.contains(name),
        seen.insert(name).subset_of(grown),
    ensures
        unseen(index, grown) < unseen(index, seen),
{
    let before = index.dom().difference(seen);
    let after = index.dom().difference(grown);
    assert(before.finite());
    assert(before.contains(name));
    assert(after.subset_of(before.remove(name)));
    lemma_len_subset(after, before.remove(name));
}

/// Seeing more types leaves no more unseen.
pub proof fn lemma_unseen_monotonic(
    index: Map<Seq<char>, SourceView>,
    seen: Set<Seq<char>>,
    grown: Set<Seq<char>>,
)
    requires
        index.dom().finite(),
        seen.subset_of(grown),
    ensures
        unseen(index, grown) <= unseen(index, seen),
{
    let before = index.dom().difference(seen);
    let after = index.dom().difference(grown);
    assert(after.subset_of(before));
    lemma_len_subset(after, before);
}

/// The walk over the lines `lines[from..]` of a schema of `package`, where
/// the types in `seen` were emitted before.
///
/// Line by line: a line that refers to no schema, or to one already seen,
/// is passed over. A line that refers to an unseen schema has it resolved.
/// If that fails, the walk ends with the failure. Otherwise the schema is
/// emitted and seen, then its own lines are walked, then the lines that
/// follow, with everything seen that the inner walk emitted.
pub open spec fn walk(
    index: Map<Seq<char>, SourceView>,
    package: Seq<char>,
    lines: Seq<Seq<char>>,
    from: int,
    seen: Set<Seq<char>>,
) -> Trace
    decreases unseen(index, seen), lines.len() - from,
    when index.dom().finite()
{
    if from < 0 || from >= lines.len() {
        Trace { names: Seq::empty(), failure: None }
    } else {
        let next = reference_of(lines[from], package);
        if next is Some && !seen.contains(next->0) {
            let name = next->0;
            match resolved(index, name) {
                Err(failure) => Trace { names: Seq::empty(), failure: Some(failure) },
                Ok(text) => {
                    let within = seen.insert(name);
                    proof {
                        lemma_unseen_shrinks(index, seen, name, within);
                    }
                    let inner = walk(index, package_of(name), lines_of(text), 0, within);
                    if inner.failure is Some {
                        Trace { names: seq![name] + inner.names, failure: inner.failure }
                    } else {
                        let after = within.union(inner.names.to_set());
                        proof {
                            lemma_unseen_shrinks(index, seen, name, after);
                        }
                        let rest = walk(index, package, lines, from + 1, after);
                        Trace {
                            names: seq![name] + inner.names + rest.names,
                            failure: rest.failure,
                        }
                    }
                },
            }
        } else {
            walk(index, package, lines, from + 1, seen)
        }
    }
}

// ----------------------------------------------------------------------
// The output
// ----------------------------------------------------------------------

/// The line that opens the block of a nested schema: eighty `=`.
pub open spec fn separator_line() -> Seq<char> {
    Seq::new(80, |i: int| '=')
}

/// A fully-qualified name as the block header shows it: `package/Type`.
pub open spec fn display_name(name: Seq<char>) -> Seq<char> {
    replaced(name, "/msg/"@, "/"@)
}

/// The block of a nested schema: the separator line, the line
/// `MSG: package/Type`, and the schema's text.
pub open spec fn block(name: Seq<char>, text: Seq<char>) -> Seq<char> {
    separator_line() + "\nMSG: "@ + display_name(name) + "\n"@ + text
}

/// The block of the type `name` of the index.
pub open spec fn block_of(index: Map<Seq<char>, SourceView>, name: Seq<char>) -> Seq<char> {
    match resolved(index, name) {
        Ok(text) => block(name, text),
        Err(_) => Seq::empty(),
    }
}

/// The blocks of the given types, in their order.
pub open spec fn blocks_of(index: Map<Seq<char>, SourceView>, names: Seq<Seq<char>>) -> Seq<
    Seq<char>,
> {
    Seq::new(names.len(), |i: int| block_of(index, names[i]))
}

/// The parts, with `sep` between each two.
pub open spec fn joined(parts: Seq<Seq<char>>, sep: Seq<char>) -> Seq<char>
    decreases parts.len(),
{
    if parts.len() == 0 {
        Seq::empty()
    } else if parts.len() == 1 {
        parts[0]
    } else {
        joined(parts.drop_last(), sep) + sep + parts.last()
    }
}

/// The flattened text of `root`: its own text, then the block of every
/// type that the walk from it emits, a blank line between each two. It
/// fails where resolving the root fails, and where the walk does.
pub open spec fn flattened(index: Map<Seq<char>, SourceView>, root: Seq<char>) -> Result<
    Seq<char>,
    Failure,
> {
    match resolved(index, root) {
        Err(failure) => Err(failure),
        Ok(text) => {
            let trace = walk(index, package_of(root), lines_of(text), 0, set![root]);
            match trace.failure {
                Some(failure) => Err(failure),
                None => Ok(joined(seq![text] + blocks_of(index, trace.names), "\n\n"@)),
            }
        },
    }
}

/// The parts joined, with `sep` between each two.
pub fn join(parts: &Vec<String>, sep: &str) -> (r: String)
    ensures
        r@ == joined(texts(parts@), sep@),
{
    let mut out = String::new();
    let mut i: usize = 0;
    let ghost all = texts(parts@);
    proof {
        assert(all.take(0) =~= Seq::<Seq<char>>::empty());
    }
    while i < parts.len()
        invariant
            i <= parts.len(),
            all == texts(parts@),
            out@ == joined(all.take(i as int), sep@),
        decreases parts.len() - i,
    {
        let ghost before = out@;
        if i > 0 {
            out.append(sep);
        }
        out.append(parts[i].as_str());
        proof {
            let now = all.take(i + 1);
            assert(now.drop_last() =~= all.take(i as int));
            assert(now.last() == parts@[i as int]@);
            if i == 0 {
                assert(before + parts@[i as int]@ =~= parts@[i as int]@);
            }
        }
        i += 1;
    }
    proof {
        assert(all.take(parts.len() as int) =~= all);
    }
    out
}

fn make_block(name: &Vec<char>, text: &str) -> (r: String)
    ensures
        r@ == block(name@, text@),
{
    let mut out: Vec<char> = Vec::new();
    let mut i: usize = 0;
    while i < 80
        invariant
            i <= 80,
            out@ == Seq::new(i as nat, |k: int| '='),
        decreases 80 - i,
    {
        out.push('=');
        proof {
            assert(out@ =~= Seq::new((i + 1) as nat, |k: int| '='));
        }
        i += 1;
    }
    let from = to_chars("/msg/");
    let to = to_chars("/");
    let shown = replace(name, &from, &to);
    push_all(&mut out, &to_chars("\nMSG: "));
    push_all(&mut out, &shown);
    push_all(&mut out, &to_chars("\n"));
    push_all(&mut out, &to_chars(text));
    from_chars(&out)
}

// ----------------------------------------------------------------------
// All types at once
// ----------------------------------------------------------------------

/// `each` applied to the names in their order: every name with its text,
/// or the failure of the first name that has one.
pub open spec fn all_of(
    names: Seq<Seq<char>>,
    each: spec_fn(Seq<char>) -> Result<Seq<char>, Failure>,
) -> Result<Seq<(Seq<char>, Seq<char>)>, Failure>
    decreases names.len(),
{
    if names.len() == 0 {
        Ok(Seq::empty())
    } else {
        match all_of(names.drop_last(), each) {
            Err(failure) => Err(failure),
            Ok(done) => match each(names.last()) {
                Err(failure) => Err(failure),
                Ok(text) => Ok(done.push((names.last(), text))),
            },
        }
    }
}

/// Every one of the names with its schema text, or the failure of the first
/// name that cannot be resolved.
pub open spec fn resolved_all(index: Map<Seq<char>, SourceView>, names: Seq<Seq<char>>) -> Result<
    Seq<(Seq<char>, Seq<char>)>,
    Failure,
> {
    all_of(names, |name: Seq<char>| resolved(index, name))
}

/// Every one of the names with its flattened text, or the failure of the
/// first name that cannot be flattened.
pub open spec fn flattened_all(index: Map<Seq<char>, SourceView>, names: Seq<Seq<char>>) -> Result<
    Seq<(Seq<char>, Seq<char>)>,
    Failure,
> {
    all_of(names, |name: Seq<char>| flattened(index, name))
}

/// The model of a result that holds named texts or a [`ResolveError`].
pub open spec fn outcome_all(r: Result<Vec<(String, String)>, ResolveError>) -> Result<
    Seq<(Seq<char>, Seq<char>)>,
    Failure,
> {
    match r {
        Ok(all) => Ok(Seq::new(all@.len(), |i: int| (all@[i].0@, all@[i].1@))),
        Err(e) => Err(e@),
    }
}

/// A failure among the first `k` names is the failure of them all.
pub proof fn lemma_all_of_fails(
    names: Seq<Seq<char>>,
    each: spec_fn(Seq<char>) -> Result<Seq<char>, Failure>,
    k: int,
)
    requires
        0 <= k <= names.len(),
        all_of(names.take(k), each) is Err,
    ensures
        all_of(names, each) == all_of(names.take(k), each),
    decreases names.len() - k,
{
    if k < names.len() {
        assert(names.take(k + 1).drop_last() =~= names.take(k));
        lemma_all_of_fails(names, each, k + 1);
    } else {
        assert(names.take(k) =~= names);
    }
}


impl CentralSchemaResolver {
    /// Walks the lines of `definition`, the schema text of `current_type`,
    /// and appends to `flat` the block of every type that the walk emits.
    ///
    /// `visited` holds the types emitted before; `current_type` is added to
    /// it first, and every type that the walk emits is added as it is
    /// emitted. The walk ends at the first type that cannot be resolved, and
    /// returns that failure; what was emitted before it stays in `visited`
    /// and `flat`.
    pub fn flatten_inner(
        &self,
        current_type: &str,
        definition: &str,
        visited: &mut StringHashSet,
        flat: &mut Vec<String>,
    ) -> (r: Result<(), ResolveError>)
        requires
            self.wf(),
        ensures
            ({
                let seen = old(visited)@.insert(current_type@);
                let trace = walk(
                    self@,
                    package_of(current_type@),
                    lines_of(definition@),
                    0,
                    seen,
                );
                &&& final(visited)@ == seen.union(trace.names.to_set())
                &&& texts(final(flat)@) == texts(old(flat)@) + blocks_of(self@, trace.names)
                &&& match trace.failure {
                    Some(failure) => r matches Err(e) && e@ == failure,
                    None => r is Ok,
                }
            }),
        decreases unseen(self@, old(visited)@.insert(current_type@)),
    {
        visited.insert(String::from_str(current_type));
        let current = to_chars(current_type);
        let slash = find(&current, '/');
        let package = subvec(&current, 0, slash);
        let text = to_chars(definition);
        let lines = split_lines(&text);

        let ghost index = self@;
        let ghost seen = visited@;
        let ghost flat0 = texts(flat@);
        let ghost all = views(lines@);
        let ghost mut found: Seq<Seq<char>> = Seq::empty();
        proof {
            self.lemma_names();
            assert(package@ =~= package_of(current_type@));
            assert(seen.union(found.to_set()) =~= seen);
            assert(flat0 + blocks_of(index, found) =~= flat0);
            assert(found + walk(index, package@, all, 0, seen).names =~= walk(
                index,
                package@,
                all,
                0,
                seen,
            ).names);
        }
        let mut i: usize = 0;
        while i < lines.len()
            invariant
                self.wf(),
                index == self@,
                index.dom().finite(),
                i <= lines.len(),
                all == views(lines@),
                all == lines_of(definition@),
                package@ == package_of(current_type@),
                seen == old(visited)@.insert(current_type@),
                flat0 == texts(old(flat)@),
                visited@ == seen.union(found.to_set()),
                texts(flat@) == flat0 + blocks_of(index, found),
                walk(index, package@, all, 0, seen).names == found + walk(
                    index,
                    package@,
                    all,
                    i as int,
                    visited@,
                ).names,
                walk(index, package@, all, 0, seen).failure == walk(
                    index,
                    package@,
                    all,
                    i as int,
                    visited@,
                ).failure,
            decreases lines.len() - i,
        {
            let ghost here = visited@;
            let ghost rest = walk(index, package@, all, i as int, here);
            assert(all[i as int] == lines@[i as int]@);
            let mut reference: Option<Vec<char>> = None;
            match type_token_chars(&lines[i]) {
                Some(token) => {
                    reference = reference_chars(&token, &package);
                },
                None => {},
            }
            assert(match reference {
                Some(n) => reference_of(all[i as int], package@) == Some(n@),
                None => reference_of(all[i as int], package@) is None,
            });
            match reference {
                Some(name_chars) => {
                    let name = from_chars(&name_chars);
                    if !visited.contains(name.as_str()) {
                        match self.resolve(name.as_str()) {
                            Err(e) => {
                                proof {
                                    assert(rest.names =~= Seq::<Seq<char>>::empty());
                                    assert(found + rest.names =~= found);
                                }
                                return Err(e);
                            },
                            Ok(nested) => {
                                let ghost within = here.insert(name@);
                                let ghost inner = walk(
                                    index,
                                    package_of(name@),
                                    lines_of(nested@),
                                    0,
                                    within,
                                );
                                let ghost flat1 = texts(flat@);
                                let entry = make_block(&name_chars, nested.as_str());
                                flat.push(entry);
                                proof {
                                    assert(index.dom().contains(name@));
                                    lemma_unseen_shrinks(index, here, name@, within);
                                    lemma_unseen_monotonic(index, seen, here);
                                    assert(texts(flat@) =~= flat1 + seq![block_of(index, name@)]);
                                }
                                let result = self.flatten_inner(
                                    name.as_str(),
                                    nested.as_str(),
                                    visited,
                                    flat,
                                );
                                let ghost grown = found + seq![name@] + inner.names;
                                proof {
                                    seq_to_set_distributes_over_add(found, seq![name@]);
                                    seq_to_set_distributes_over_add(
                                        found + seq![name@],
                                        inner.names,
                                    );
                                    assert(seq![name@][0] == name@);
                                    assert(seq![name@].to_set() =~= set![name@]);
                                    assert(visited@ =~= seen.union(grown.to_set()));
                                    assert(blocks_of(index, grown) =~= blocks_of(index, found)
                                        + seq![block_of(index, name@)] + blocks_of(
                                        index,
                                        inner.names,
                                    ));
                                    assert(texts(flat@) =~= flat0 + blocks_of(index, grown));
                                    assert(visited@ =~= within.union(inner.names.to_set()));
                                }
                                match result {
                                    Err(e) => {
                                        proof {
                                            assert(found + rest.names =~= grown);
                                        }
                                        return Err(e);
                                    },
                                    Ok(()) => {
                                        proof {
                                            let after = walk(
                                                index,
                                                package@,
                                                all,
                                                i + 1,
                                                visited@,
                                            );
                                            assert(found + rest.names =~= grown + after.names);
                                            found = grown;
                                        }
                                    },
                                }
                            },
                        }
                    }
                },
                None => {},
            }
            i += 1;
        }
        proof {
            let rest = walk(index, package@, all, i as int, visited@);
            assert(found + rest.names =~= found);
        }
        Ok(())
    }

    /// The flattened text of `root_type`: the root's schema text, then the
    /// block of every type that the root refers to, directly or through
    /// others, each once and in the order of first discovery, with a blank
    /// line between each two.
    ///
    /// Fails with the failure of the first type that cannot be resolved,
    /// the root or one met on the walk.
    pub fn flatten(&self, root_type: &str) -> (r: Result<String, ResolveError>)
        requires
            self.wf(),
        ensures
            outcome(r) == flattened(self@, root_type@),
    {
        let mut visited = StringHashSet::new();
        let mut flat: Vec<String> = Vec::new();
        let definition = match self.resolve(root_type) {
            Ok(text) => text,
            Err(e) => {
                return Err(e);
            },
        };
        flat.push(definition.clone());
        proof {
            assert(visited@.insert(root_type@) =~= set![root_type@]);
        }
        let ghost trace = walk(
            self@,
            package_of(root_type@),
            lines_of(definition@),
            0,
            set![root_type@],
        );
        match self.flatten_inner(root_type, definition.as_str(), &mut visited, &mut flat) {
            Err(e) => {
                return Err(e);
            },
            Ok(()) => {},
        }
        proof {
            assert(texts(flat@) =~= seq![definition@] + blocks_of(self@, trace.names));
        }
        Ok(join(&flat, "\n\n"))
    }

    /// The schema text of every type of the index, each with its name, in
    /// ascending order of the names. Fails with the failure of the first
    /// type, in that order, that cannot be resolved.
    pub fn generate_all_raw(&self) -> (r: Result<Vec<(String, String)>, ResolveError>)
        requires
            self.wf(),
        ensures
            outcome_all(r) == resolved_all(self@, self.names()),
    {
        let names = self.type_names();
        let ghost all = self.names();
        let ghost each = |name: Seq<char>| resolved(self@, name);
        let mut out: Vec<(String, String)> = Vec::new();
        let mut i: usize = 0;
        proof {
            assert(all.take(0) =~= Seq::<Seq<char>>::empty());
            assert(outcome_all(Ok(out))->Ok_0 =~= Seq::<(Seq<char>, Seq<char>)>::empty());
        }
        while i < names.len()
            invariant
                self.wf(),
                i <= names.len(),
                all == self.names(),
                names@.len() == all.len(),
                forall|j: int| 0 <= j < names@.len() ==> (#[trigger] names@[j])@ == all[j],
                each == |name: Seq<char>| resolved(self@, name),
                all_of(all.take(i as int), each) == outcome_all(Ok(out)),
            decreases names.len() - i,
        {
            let ghost before = outcome_all(Ok(out))->Ok_0;
            proof {
                assert(all.take(i + 1).drop_last() =~= all.take(i as int));
                assert(all.take(i + 1).last() == names@[i as int]@);
            }
            match self.resolve(names[i].as_str()) {
                Err(e) => {
                    proof {
                        lemma_all_of_fails(all, each, i + 1);
                    }
                    return Err(e);
                },
                Ok(text) => {
                    let ghost t = text@;
                    out.push((names[i].clone(), text));
                    proof {
                        assert(outcome_all(Ok(out))->Ok_0 =~= before.push((all[i as int], t)));
                    }
                },
            }
            i += 1;
        }
        proof {
            assert(all.take(names.len() as int) =~= all);
        }
        Ok(out)
    }

    /// The flattened text of every type of the index, each with its name,
    /// in ascending order of the names. Fails with the failure of the first
    /// type, in that order, that cannot be flattened.
    pub fn generate_all_flattened(&self) -> (r: Result<Vec<(String, String)>, ResolveError>)
        requires
            self.wf(),
        ensures
            outcome_all(r) == flattened_all(self@, self.names()),
    {
        let names = self.type_names();
        let ghost all = self.names();
        let ghost each = |name: Seq<char>| flattened(self@, name);
        let mut out: Vec<(String, String)> = Vec::new();
        let mut i: usize = 0;
        proof {
            assert(all.take(0) =~= Seq::<Seq<char>>::empty());
            assert(outcome_all(Ok(out))->Ok_0 =~= Seq::<(Seq<char>, Seq<char>)>::empty());
        }
        while i < names.len()
            invariant
                self.wf(),
                i <= names.len(),
                all == self.names(),
                names@.len() == all.len(),
                forall|j: int| 0 <= j < names@.len() ==> (#[trigger] names@[j])@ == all[j],
                each == |name: Seq<char>| flattened(self@, name),
                all_of(all.take(i as int), each) == outcome_all(Ok(out)),
            decreases names.len() - i,
        {
            let ghost before = outcome_all(Ok(out))->Ok_0;
            proof {
                assert(all.take(i + 1).drop_last() =~= all.take(i as int));
                assert(all.take(i + 1).last() == names@[i as int]@);
            }
            match self.flatten(names[i].as_str()) {
                Err(e) => {
                    proof {
                        lemma_all_of_fails(all, each, i + 1);
                    }
                    return Err(e);
                },
                Ok(text) => {
                    let ghost t = text@;
                    out.push((names[i].clone(), text));
                    proof {
                        assert(outcome_all(Ok(out))->Ok_0 =~= before.push((all[i as int], t)));
                    }
                },
            }
            i += 1;
        }
        proof {
            assert(all.take(names.len() as int) =~= all);
        }
        Ok(out)
    }
}

} // verus!
