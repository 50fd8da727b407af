//! What holds of every walk: each type is emitted once, what is emitted is
//! closed under reference and holds nothing that is not referred to, and a
//! walk fails only where a type does not resolve.
//!
//! These are statements about the model of the flattening engine, proved
//! for every finite index, every schema text and every set of types seen
//! before.

use vstd::prelude::*;
use vstd::seq_lib::seq_to_set_distributes_over_add;
use crate::flatten::{
    flattened, lemma_unseen_shrinks, package_of, reference_of, unseen, walk,
};
use crate::resolver::{resolved, Failure, SourceView};
use crate::text::lines_of;

verus! {

// ----------------------------------------------------------------------
// Each type once
// ----------------------------------------------------------------------

/// The names are pairwise different, none of them was seen before, and each
/// resolves in the index.
pub open spec fn fresh_and_distinct(
    index: Map<Seq<char>, SourceView>,
    names: Seq<Seq<char>>,
    seen: Set<Seq<char>>,
) -> bool {
    &&& names.no_duplicates()
    &&& forall|i: int|
        0 <= i < names.len() ==> !seen.contains(#[trigger] names[i]) && resolved(index, names[i])
            is Ok
}

proof fn lemma_singleton_set(name: Seq<char>)
    ensures
        seq![name].to_set() == set![name],
{
    assert(seq![name][0] == name);
    assert(seq![name].to_set() =~= set![name]);
}

proof fn lemma_append_fresh(
    index: Map<Seq<char>, SourceView>,
    a: Seq<Seq<char>>,
    b: Seq<Seq<char>>,
    seen: Set<Seq<char>>,
)
    requires
        fresh_and_distinct(index, a, seen),
        fresh_and_distinct(index, b, seen.union(a.to_set())),
    ensures
        fresh_and_distinct(index, a + b, seen),
        seen.union((a + b).to_set()) == seen.union(a.to_set()).union(b.to_set()),
{
    let c = a + b;
    assert forall|i: int, j: int| 0 <= i < c.len() && 0 <= j < c.len() && i != j implies c[i]
        != c[j] by {
        if i < a.len() && j >= a.len() {
            assert(a.to_set().contains(a[i]));
            assert(c[j] == b[j - a.len()]);
        } else if j < a.len() && i >= a.len() {
            assert(a.to_set().contains(a[j]));
            assert(c[i] == b[i - a.len()]);
        } else if i >= a.len() {
            assert(c[i] == b[i - a.len()] && c[j] == b[j - a.len()]);
        }
    }
    assert forall|i: int| 0 <= i < c.len() implies !seen.contains(#[trigger] c[i]) && resolved(
        index,
        c[i],
    ) is Ok by {
        if i >= a.len() {
            assert(c[i] == b[i - a.len()]);
        }
    }
    seq_to_set_distributes_over_add(a, b);
    assert(seen.union((a + b).to_set()) =~= seen.union(a.to_set()).union(b.to_set()));
}

/// No walk emits a type twice, nor a type that was seen before it began,
/// and every type it emits resolves. So a cycle among the schemas ends the
/// walk, and a type that several fields refer to is emitted once.
pub proof fn lemma_walk_emits_once(
    index: Map<Seq<char>, SourceView>,
    package: Seq<char>,
    lines: Seq<Seq<char>>,
    from: int,
    seen: Set<Seq<char>>,
)
    requires
        index.dom().finite(),
    ensures
        fresh_and_distinct(index, walk(index, package, lines, from, seen).names, seen),
    decreases unseen(index, seen), lines.len() - from,
{
    if from < 0 || from >= lines.len() {
    } else {
        let next = reference_of(lines[from], package);
        if next is Some && !seen.contains(next->0) {
            let name = next->0;
            match resolved(index, name) {
                Err(_) => {},
                Ok(text) => {
                    let within = seen.insert(name);
                    lemma_unseen_shrinks(index, seen, name, within);
                    let inner = walk(index, package_of(name), lines_of(text), 0, within);
                    lemma_walk_emits_once(index, package_of(name), lines_of(text), 0, within);
                    let first = seq![name];
                    lemma_singleton_set(name);
                    assert(seen.union(first.to_set()) =~= within);
                    lemma_append_fresh(index, first, inner.names, seen);
                    if inner.failure is None {
                        let after = within.union(inner.names.to_set());
                        lemma_unseen_shrinks(index, seen, name, after);
                        let rest = walk(index, package, lines, from + 1, after);
                        lemma_walk_emits_once(index, package, lines, from + 1, after);
                        lemma_append_fresh(index, first + inner.names, rest.names, seen);
                    }
                },
            }
        } else {
            lemma_walk_emits_once(index, package, lines, from + 1, seen);
        }
    }
}

// ----------------------------------------------------------------------
// Closed under reference
// ----------------------------------------------------------------------

/// Every schema that a line of `lines[from..]` refers to, seen from
/// `package`, is in `known`.
pub open spec fn refers_within(
    package: Seq<char>,
    lines: Seq<Seq<char>>,
    from: int,
    known: Set<Seq<char>>,
) -> bool {
    forall|j: int|
        from <= j < lines.len() ==> ((#[trigger] reference_of(lines[j], package)) matches Some(
            name,
        ) ==> known.contains(name))
}

/// Every schema that the schema `name` refers to is in `known`.
pub open spec fn schema_refers_within(
    index: Map<Seq<char>, SourceView>,
    name: Seq<char>,
    known: Set<Seq<char>>,
) -> bool {
    resolved(index, name) matches Ok(text) ==> refers_within(
        package_of(name),
        lines_of(text),
        0,
        known,
    )
}

/// Every schema that one of `names` refers to is in `known`.
pub open spec fn closed_within(
    index: Map<Seq<char>, SourceView>,
    names: Seq<Seq<char>>,
    known: Set<Seq<char>>,
) -> bool {
    forall|i: int| 0 <= i < names.len() ==> schema_refers_within(index, #[trigger] names[i], known)
}

/// A walk that does not fail leaves no reference open: every schema that
/// the walked lines refer to, and every schema that an emitted schema
/// refers to, was seen before or is emitted.
pub proof fn lemma_walk_complete(
    index: Map<Seq<char>, SourceView>,
    package: Seq<char>,
    lines: Seq<Seq<char>>,
    from: int,
    seen: Set<Seq<char>>,
)
    requires
        index.dom().finite(),
        0 <= from,
        walk(index, package, lines, from, seen).failure is None,
    ensures
        ({
            let trace = walk(index, package, lines, from, seen);
            let known = seen.union(trace.names.to_set());
            &&& refers_within(package, lines, from, known)
            &&& closed_within(index, trace.names, known)
        }),
    decreases unseen(index, seen), lines.len() - from,
{
    let trace = walk(index, package, lines, from, seen);
    let known = seen.union(trace.names.to_set());
    if from >= lines.len() {
    } else {
        let next = reference_of(lines[from], package);
        if next is Some && !seen.contains(next->0) {
            let name = next->0;
            match resolved(index, name) {
                Err(_) => {},
                Ok(text) => {
                    let within = seen.insert(name);
                    lemma_unseen_shrinks(index, seen, name, within);
                    let inner = walk(index, package_of(name), lines_of(text), 0, within);
                    lemma_walk_complete(index, package_of(name), lines_of(text), 0, within);
                    let after = within.union(inner.names.to_set());
                    lemma_unseen_shrinks(index, seen, name, after);
                    let rest = walk(index, package, lines, from + 1, after);
                    lemma_walk_complete(index, package, lines, from + 1, after);
                    let first = seq![name];
                    lemma_singleton_set(name);
                    seq_to_set_distributes_over_add(first, inner.names);
                    seq_to_set_distributes_over_add(first + inner.names, rest.names);
                    assert(known =~= after.union(rest.names.to_set()));
                    assert forall|j: int| from <= j < lines.len() implies ((
                    #[trigger] reference_of(lines[j], package)) matches Some(n)
                        ==> known.contains(n)) by {
                        if j == from {
                            assert(known.contains(name));
                        }
                    }
                    assert forall|i: int| 0 <= i < trace.names.len() implies schema_refers_within(
                        index,
                        #[trigger] trace.names[i],
                        known,
                    ) by {
                        if i == 0 {
                            assert(trace.names[0] == name);
                        } else if i < 1 + inner.names.len() {
                            assert(trace.names[i] == inner.names[i - 1]);
                            assert(schema_refers_within(index, inner.names[i - 1], after));
                        } else {
                            assert(trace.names[i] == rest.names[i - 1 - inner.names.len()]);
                        }
                    }
                },
            }
        } else {
            lemma_walk_complete(index, package, lines, from + 1, seen);
            assert forall|j: int| from <= j < lines.len() implies ((#[trigger] reference_of(
                lines[j],
                package,
            )) matches Some(n) ==> known.contains(n)) by {}
        }
    }
}

// ----------------------------------------------------------------------
// Nothing but what is referred to
// ----------------------------------------------------------------------

/// A line of `lines[from..]` refers to `name`, seen from `package`.
pub open spec fn lines_refer_to(
    package: Seq<char>,
    lines: Seq<Seq<char>>,
    from: int,
    name: Seq<char>,
) -> bool {
    exists|j: int|
        from <= j < lines.len() && #[trigger] reference_of(lines[j], package) == Some(name)
}

/// The schema `from_name` refers to `name`.
pub open spec fn schema_refers_to(
    index: Map<Seq<char>, SourceView>,
    from_name: Seq<char>,
    name: Seq<char>,
) -> bool {
    resolved(index, from_name) matches Ok(text) && lines_refer_to(
        package_of(from_name),
        lines_of(text),
        0,
        name,
    )
}

/// The type `names[i]` is referred to by one of `names` that stands before
/// it.
pub open spec fn referred_by_earlier(
    index: Map<Seq<char>, SourceView>,
    names: Seq<Seq<char>>,
    i: int,
) -> bool {
    exists|k: int| 0 <= k < i && #[trigger] schema_refers_to(index, names[k], names[i])
}

/// Each of `names` is referred to by a line of `lines[from..]` or by one of
/// `names` that stands before it.
pub open spec fn accounted_for(
    index: Map<Seq<char>, SourceView>,
    package: Seq<char>,
    lines: Seq<Seq<char>>,
    from: int,
    names: Seq<Seq<char>>,
) -> bool {
    forall|i: int|
        0 <= i < names.len() ==> lines_refer_to(package, lines, from, #[trigger] names[i])
            || referred_by_earlier(index, names, i)
}

proof fn lemma_accounted_earlier_line(
    index: Map<Seq<char>, SourceView>,
    package: Seq<char>,
    lines: Seq<Seq<char>>,
    from: int,
    names: Seq<Seq<char>>,
)
    requires
        accounted_for(index, package, lines, from + 1, names),
    ensures
        accounted_for(index, package, lines, from, names),
{
    assert forall|i: int| 0 <= i < names.len() implies lines_refer_to(
        package,
        lines,
        from,
        #[trigger] names[i],
    ) || referred_by_earlier(index, names, i) by {
        if lines_refer_to(package, lines, from + 1, names[i]) {
            let j = choose|j: int|
                from + 1 <= j < lines.len() && #[trigger] reference_of(lines[j], package) == Some(
                    names[i],
                );
            assert(from <= j < lines.len() && reference_of(lines[j], package) == Some(names[i]));
        }
    }
}

proof fn lemma_accounted_nested(
    index: Map<Seq<char>, SourceView>,
    package: Seq<char>,
    lines: Seq<Seq<char>>,
    from: int,
    name: Seq<char>,
    text: Seq<char>,
    inner: Seq<Seq<char>>,
    rest: Seq<Seq<char>>,
)
    requires
        0 <= from < lines.len(),
        reference_of(lines[from], package) == Some(name),
        resolved(index, name) == Ok::<Seq<char>, Failure>(text),
        accounted_for(index, package_of(name), lines_of(text), 0, inner),
        accounted_for(index, package, lines, from + 1, rest),
    ensures
        accounted_for(index, package, lines, from, seq![name] + inner + rest),
{
    let names = seq![name] + inner + rest;
    let n = inner.len() as int;
    lemma_accounted_earlier_line(index, package, lines, from, rest);
    assert forall|i: int| 0 <= i < names.len() implies lines_refer_to(
        package,
        lines,
        from,
        #[trigger] names[i],
    ) || referred_by_earlier(index, names, i) by {
        if i == 0 {
            assert(reference_of(lines[from], package) == Some(names[0]));
        } else if i <= n {
            assert(names[i] == inner[i - 1]);
            if lines_refer_to(package_of(name), lines_of(text), 0, inner[i - 1]) {
                assert(schema_refers_to(index, names[0], names[i]));
            } else {
                assert(referred_by_earlier(index, inner, i - 1));
                let k = choose|k: int|
                    0 <= k < i - 1 && #[trigger] schema_refers_to(index, inner[k], inner[i - 1]);
                assert(names[k + 1] == inner[k]);
                assert(schema_refers_to(index, names[k + 1], names[i]));
            }
        } else {
            let m = i - 1 - n;
            assert(names[i] == rest[m]);
            if !lines_refer_to(package, lines, from, rest[m]) {
                assert(referred_by_earlier(index, rest, m));
                let k = choose|k: int|
                    0 <= k < m && #[trigger] schema_refers_to(index, rest[k], rest[m]);
                assert(names[k + 1 + n] == rest[k]);
                assert(schema_refers_to(index, names[k + 1 + n], names[i]));
            }
        }
    }
}

/// A walk emits nothing but what is referred to: each type it emits is
/// named by one of the walked lines or by a schema emitted before it.
pub proof fn lemma_walk_sound(
    index: Map<Seq<char>, SourceView>,
    package: Seq<char>,
    lines: Seq<Seq<char>>,
    from: int,
    seen: Set<Seq<char>>,
)
    requires
        index.dom().finite(),
        0 <= from,
    ensures
        accounted_for(index, package, lines, from, walk(index, package, lines, from, seen).names),
    decreases unseen(index, seen), lines.len() - from,
{
    let names = walk(index, package, lines, from, seen).names;
    if from >= lines.len() {
    } else {
        let next = reference_of(lines[from], package);
        if next is Some && !seen.contains(next->0) {
            let name = next->0;
            match resolved(index, name) {
                Err(_) => {},
                Ok(text) => {
                    let within = seen.insert(name);
                    lemma_unseen_shrinks(index, seen, name, within);
                    let inner = walk(index, package_of(name), lines_of(text), 0, within);
                    lemma_walk_sound(index, package_of(name), lines_of(text), 0, within);
                    let after = within.union(inner.names.to_set());
                    let rest = if inner.failure is None {
                        lemma_unseen_shrinks(index, seen, name, after);
                        lemma_walk_sound(index, package, lines, from + 1, after);
                        walk(index, package, lines, from + 1, after).names
                    } else {
                        Seq::empty()
                    };
                    assert(names =~= seq![name] + inner.names + rest);
                    lemma_accounted_nested(
                        index,
                        package,
                        lines,
                        from,
                        name,
                        text,
                        inner.names,
                        rest,
                    );
                },
            }
        } else {
            lemma_walk_sound(index, package, lines, from + 1, seen);
            lemma_accounted_earlier_line(index, package, lines, from, names);
        }
    }
}

// ----------------------------------------------------------------------
// When a walk fails
// ----------------------------------------------------------------------

/// The type that a failure names.
pub open spec fn failed_type(failure: Failure) -> Seq<char> {
    match failure {
        Failure::NotFound { typename } => typename,
        Failure::IoError { typename, .. } => typename,
    }
}

/// A walk fails only with the failure of a type that does not resolve: the
/// failure names that type, and it is what resolving it gives.
pub proof fn lemma_walk_failure(
    index: Map<Seq<char>, SourceView>,
    package: Seq<char>,
    lines: Seq<Seq<char>>,
    from: int,
    seen: Set<Seq<char>>,
)
    requires
        index.dom().finite(),
    ensures
        walk(index, package, lines, from, seen).failure matches Some(failure) ==> resolved(
            index,
            failed_type(failure),
        ) == Err::<Seq<char>, Failure>(failure),
    decreases unseen(index, seen), lines.len() - from,
{
    if from < 0 || from >= lines.len() {
    } else {
        let next = reference_of(lines[from], package);
        if next is Some && !seen.contains(next->0) {
            let name = next->0;
            match resolved(index, name) {
                Err(_) => {},
                Ok(text) => {
                    let within = seen.insert(name);
                    lemma_unseen_shrinks(index, seen, name, within);
                    let inner = walk(index, package_of(name), lines_of(text), 0, within);
                    lemma_walk_failure(index, package_of(name), lines_of(text), 0, within);
                    if inner.failure is None {
                        let after = within.union(inner.names.to_set());
                        lemma_unseen_shrinks(index, seen, name, after);
                        lemma_walk_failure(index, package, lines, from + 1, after);
                    }
                },
            }
        } else {
            lemma_walk_failure(index, package, lines, from + 1, seen);
        }
    }
}

/// Every schema that a line of `lines` refers to, seen from `package`,
/// resolves.
pub open spec fn lines_resolve(
    index: Map<Seq<char>, SourceView>,
    package: Seq<char>,
    lines: Seq<Seq<char>>,
) -> bool {
    forall|j: int|
        0 <= j < lines.len() ==> ((#[trigger] reference_of(lines[j], package)) matches Some(
            name,
        ) ==> resolved(index, name) is Ok)
}

/// Every schema that a schema of the index refers to resolves.
pub open spec fn index_is_closed(index: Map<Seq<char>, SourceView>) -> bool {
    forall|name: Seq<char>|
        (#[trigger] resolved(index, name)) matches Ok(text) ==> lines_resolve(
            index,
            package_of(name),
            lines_of(text),
        )
}

/// In an index whose schemas refer to schemas that resolve, a walk over
/// lines that do so too does not fail.
pub proof fn lemma_walk_succeeds(
    index: Map<Seq<char>, SourceView>,
    package: Seq<char>,
    lines: Seq<Seq<char>>,
    from: int,
    seen: Set<Seq<char>>,
)
    requires
        index.dom().finite(),
        index_is_closed(index),
        lines_resolve(index, package, lines),
    ensures
        walk(index, package, lines, from, seen).failure is None,
    decreases unseen(index, seen), lines.len() - from,
{
    if from < 0 || from >= lines.len() {
    } else {
        let next = reference_of(lines[from], package);
        if next is Some && !seen.contains(next->0) {
            let name = next->0;
            match resolved(index, name) {
                Err(_) => {},
                Ok(text) => {
                    let within = seen.insert(name);
                    lemma_unseen_shrinks(index, seen, name, within);
                    let inner = walk(index, package_of(name), lines_of(text), 0, within);
                    lemma_walk_succeeds(index, package_of(name), lines_of(text), 0, within);
                    let after = within.union(inner.names.to_set());
                    lemma_unseen_shrinks(index, seen, name, after);
                    lemma_walk_succeeds(index, package, lines, from + 1, after);
                },
            }
        } else {
            lemma_walk_succeeds(index, package, lines, from + 1, seen);
        }
    }
}

// ----------------------------------------------------------------------
// The flattened text
// ----------------------------------------------------------------------

/// The types whose blocks follow the root's text in the flattened text of
/// `root`, in their order.
pub open spec fn dependencies(index: Map<Seq<char>, SourceView>, root: Seq<char>) -> Seq<
    Seq<char>,
> {
    match resolved(index, root) {
        Ok(text) => walk(index, package_of(root), lines_of(text), 0, set![root]).names,
        Err(_) => Seq::empty(),
    }
}

/// Where flattening succeeds, the root and the types that follow it are
/// pairwise different, and each of them resolves: every type appears once,
/// the root among them, whatever cycles the schemas form.
pub proof fn lemma_flatten_emits_once(index: Map<Seq<char>, SourceView>, root: Seq<char>)
    requires
        index.dom().finite(),
        flattened(index, root) is Ok,
    ensures
        (seq![root] + dependencies(index, root)).no_duplicates(),
        forall|i: int|
            0 <= i < dependencies(index, root).len() ==> resolved(
                index,
                #[trigger] dependencies(index, root)[i],
            ) is Ok,
{
    let text = resolved(index, root)->Ok_0;
    lemma_walk_emits_once(index, package_of(root), lines_of(text), 0, set![root]);
    let deps = dependencies(index, root);
    let all = seq![root] + deps;
    assert forall|i: int, j: int| 0 <= i < all.len() && 0 <= j < all.len() && i != j implies all[i]
        != all[j] by {
        if i > 0 {
            assert(all[i] == deps[i - 1]);
        }
        if j > 0 {
            assert(all[j] == deps[j - 1]);
        }
    }
}

/// Where flattening succeeds, its output is closed under reference: every
/// schema that the root or a type that follows it refers to is the root or
/// follows it.
pub proof fn lemma_flatten_complete(index: Map<Seq<char>, SourceView>, root: Seq<char>)
    requires
        index.dom().finite(),
        flattened(index, root) is Ok,
    ensures
        closed_within(
            index,
            seq![root] + dependencies(index, root),
            (seq![root] + dependencies(index, root)).to_set(),
        ),
{
    let text = resolved(index, root)->Ok_0;
    let deps = dependencies(index, root);
    let all = seq![root] + deps;
    lemma_walk_complete(index, package_of(root), lines_of(text), 0, set![root]);
    lemma_singleton_set(root);
    seq_to_set_distributes_over_add(seq![root], deps);
    assert(all.to_set() =~= set![root].union(deps.to_set()));
    assert forall|i: int| 0 <= i < all.len() implies schema_refers_within(
        index,
        #[trigger] all[i],
        all.to_set(),
    ) by {
        if i > 0 {
            assert(all[i] == deps[i - 1]);
        }
    }
}

/// Where flattening succeeds, every type that follows the root is referred
/// to by the root or by a type that stands before it: the flattened text
/// holds nothing that the root does not reach.
pub proof fn lemma_flatten_sound(index: Map<Seq<char>, SourceView>, root: Seq<char>)
    requires
        index.dom().finite(),
        flattened(index, root) is Ok,
    ensures
        forall|i: int|
            1 <= i <= dependencies(index, root).len() ==> #[trigger] referred_by_earlier(
                index,
                seq![root] + dependencies(index, root),
                i,
            ),
{
    let text = resolved(index, root)->Ok_0;
    let deps = dependencies(index, root);
    let all = seq![root] + deps;
    lemma_walk_sound(index, package_of(root), lines_of(text), 0, set![root]);
    assert forall|i: int| 1 <= i <= deps.len() implies #[trigger] referred_by_earlier(
        index,
        all,
        i,
    ) by {
        assert(all[i] == deps[i - 1]);
        if lines_refer_to(package_of(root), lines_of(text), 0, deps[i - 1]) {
            assert(schema_refers_to(index, all[0], all[i]));
        } else {
            assert(referred_by_earlier(index, deps, i - 1));
            let k = choose|k: int|
                0 <= k < i - 1 && #[trigger] schema_refers_to(index, deps[k], deps[i - 1]);
            assert(all[k + 1] == deps[k]);
            assert(schema_refers_to(index, all[k + 1], all[i]));
        }
    }
}

/// Flattening succeeds for every type of an index whose schemas refer to
/// schemas that resolve.
pub proof fn lemma_flatten_succeeds(index: Map<Seq<char>, SourceView>, root: Seq<char>)
    requires
        index.dom().finite(),
        index_is_closed(index),
        resolved(index, root) is Ok,
    ensures
        flattened(index, root) is Ok,
{
    let text = resolved(index, root)->Ok_0;
    lemma_walk_succeeds(index, package_of(root), lines_of(text), 0, set![root]);
}

/// Where flattening fails, it fails with the failure of a type that does
/// not resolve, and the failure names that type.
pub proof fn lemma_flatten_failure(index: Map<Seq<char>, SourceView>, root: Seq<char>)
    requires
        index.dom().finite(),
    ensures
        flattened(index, root) matches Err(failure) ==> resolved(index, failed_type(failure))
            == Err::<Seq<char>, Failure>(failure),
{
    match resolved(index, root) {
        Ok(text) => {
            lemma_walk_failure(index, package_of(root), lines_of(text), 0, set![root]);
        },
        Err(_) => {},
    }
}

} // verus!
