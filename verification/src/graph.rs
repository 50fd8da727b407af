//! The walk seen as a walk over the graph of references.
//!
//! What a walk emits depends on a schema's text only through the schemas
//! that its lines refer to, in their order. This module states the walk
//! over those lists of references, proves that it is the walk over the
//! lines, and gives the order of discovery for schemas that are known by
//! their references alone.

use vstd::prelude::*;
use crate::closure::dependencies;
use crate::flatten::{
    blocks_of, flattened, joined, lemma_unseen_shrinks, package_of, reference_of, unseen, walk,
    Trace,
};
use crate::resolver::{resolved, Failure, SourceView};
use crate::text::lines_of;

verus! {

/// The schemas that the lines `lines[from..]` of a schema of `package`
/// refer to, in the order of the lines. A schema that several lines refer
/// to stands there as often.
pub open spec fn references(package: Seq<char>, lines: Seq<Seq<char>>, from: int) -> Seq<
    Seq<char>,
>
    decreases lines.len() - from,
{
    if from < 0 || from >= lines.len() {
        Seq::empty()
    } else {
        match reference_of(lines[from], package) {
            Some(name) => seq![name] + references(package, lines, from + 1),
            None => references(package, lines, from + 1),
        }
    }
}

/// The schemas that the schema `name` of the index refers to, in the order
/// of its lines; none where `name` does not resolve.
pub open spec fn schema_references(index: Map<Seq<char>, SourceView>, name: Seq<char>) -> Seq<
    Seq<char>,
> {
    match resolved(index, name) {
        Ok(text) => references(package_of(name), lines_of(text), 0),
        Err(_) => Seq::empty(),
    }
}

/// The walk over a list of references, where the types in `seen` were
/// emitted before: a reference to a type that was seen is passed over; any
/// other is resolved, emitted and seen, then what it refers to is visited,
/// then the references that follow. The first type that does not resolve
/// ends the walk.
pub open spec fn visit(
    index: Map<Seq<char>, SourceView>,
    refs: Seq<Seq<char>>,
    seen: Set<Seq<char>>,
) -> Trace
    decreases unseen(index, seen), refs.len(),
    when index.dom().finite()
{
    if refs.len() == 0 {
        Trace { names: Seq::empty(), failure: None }
    } else {
        let name = refs[0];
        let later = refs.drop_first();
        if seen.contains(name) {
            visit(index, later, seen)
        } else {
            match resolved(index, name) {
                Err(failure) => Trace { names: Seq::empty(), failure: Some(failure) },
                Ok(_) => {
                    let within = seen.insert(name);
                    proof {
                        lemma_unseen_shrinks(index, seen, name, within);
                    }
                    let inner = visit(index, schema_references(index, name), within);
                    if inner.failure is Some {
                        Trace { names: seq![name] + inner.names, failure: inner.failure }
                    } else {
                        let after = within.union(inner.names.to_set());
                        proof {
                            lemma_unseen_shrinks(index, seen, name, after);
                        }
                        let rest = visit(index, later, after);
                        Trace {
                            names: seq![name] + inner.names + rest.names,
                            failure: rest.failure,
                        }
                    }
                },
            }
        }
    }
}

/// The walk over the lines of a schema is the walk over the references of
/// those lines: lines that refer to nothing change nothing.
pub proof fn lemma_walk_is_visit(
    index: Map<Seq<char>, SourceView>,
    package: Seq<char>,
    lines: Seq<Seq<char>>,
    from: int,
    seen: Set<Seq<char>>,
)
    requires
        index.dom().finite(),
    ensures
        walk(index, package, lines, from, seen) == visit(
            index,
            references(package, lines, from),
            seen,
        ),
    decreases unseen(index, seen), lines.len() - from,
{
    let refs = references(package, lines, from);
    if from < 0 || from >= lines.len() {
    } else {
        let later = references(package, lines, from + 1);
        match reference_of(lines[from], package) {
            None => {
                lemma_walk_is_visit(index, package, lines, from + 1, seen);
            },
            Some(name) => {
                assert(refs[0] == name);
                assert(refs.drop_first() =~= later);
                if seen.contains(name) {
                    lemma_walk_is_visit(index, package, lines, from + 1, seen);
                } else {
                    match resolved(index, name) {
                        Err(_) => {},
                        Ok(text) => {
                            let within = seen.insert(name);
                            lemma_unseen_shrinks(index, seen, name, within);
                            lemma_walk_is_visit(
                                index,
                                package_of(name),
                                lines_of(text),
                                0,
                                within,
                            );
                            let inner = walk(index, package_of(name), lines_of(text), 0, within);
                            if inner.failure is None {
                                let after = within.union(inner.names.to_set());
                                lemma_unseen_shrinks(index, seen, name, after);
                                lemma_walk_is_visit(index, package, lines, from + 1, after);
                            }
                        },
                    }
                }
            },
        }
    }
}

/// The types that follow the root in its flattened text are those that the
/// visit of the root's references emits.
pub proof fn lemma_dependencies_by_visit(index: Map<Seq<char>, SourceView>, root: Seq<char>)
    requires
        index.dom().finite(),
        resolved(index, root) is Ok,
    ensures
        dependencies(index, root) == visit(index, schema_references(index, root), set![root]).names,
        flattened(index, root) == (match visit(
            index,
            schema_references(index, root),
            set![root],
        ).failure {
            Some(failure) => Err::<Seq<char>, Failure>(failure),
            None => Ok(
                joined(
                    seq![resolved(index, root)->Ok_0] + blocks_of(
                        index,
                        dependencies(index, root),
                    ),
                    "\n\n"@,
                ),
            ),
        }),
{
    let text = resolved(index, root)->Ok_0;
    lemma_walk_is_visit(index, package_of(root), lines_of(text), 0, set![root]);
}

/// A type that refers to nothing, visited first among `refs`, is emitted
/// alone; the visit goes on with what follows it.
pub proof fn lemma_visit_leaf(
    index: Map<Seq<char>, SourceView>,
    name: Seq<char>,
    later: Seq<Seq<char>>,
    seen: Set<Seq<char>>,
)
    requires
        index.dom().finite(),
        !seen.contains(name),
        resolved(index, name) is Ok,
        schema_references(index, name) == Seq::<Seq<char>>::empty(),
    ensures
        visit(index, seq![name] + later, seen).names == seq![name] + visit(
            index,
            later,
            seen.insert(name),
        ).names,
        visit(index, seq![name] + later, seen).failure == visit(
            index,
            later,
            seen.insert(name),
        ).failure,
{
    let refs = seq![name] + later;
    assert(refs[0] == name);
    assert(refs.drop_first() =~= later);
    let within = seen.insert(name);
    lemma_unseen_shrinks(index, seen, name, within);
    let inner = visit(index, schema_references(index, name), within);
    assert(inner.names.len() == 0);
    assert(within.union(inner.names.to_set()) =~= within);
    assert(seq![name] + inner.names + visit(index, later, within).names =~= seq![name] + visit(
        index,
        later,
        within,
    ).names);
}

/// A type whose references are visited without failure, visited first among
/// `refs`, is emitted, then what its references give, then what the
/// references that follow it give.
pub proof fn lemma_visit_node(
    index: Map<Seq<char>, SourceView>,
    name: Seq<char>,
    later: Seq<Seq<char>>,
    seen: Set<Seq<char>>,
)
    requires
        index.dom().finite(),
        !seen.contains(name),
        resolved(index, name) is Ok,
        visit(index, schema_references(index, name), seen.insert(name)).failure is None,
    ensures
        ({
            let inner = visit(index, schema_references(index, name), seen.insert(name));
            let rest = visit(index, later, seen.insert(name).union(inner.names.to_set()));
            &&& visit(index, seq![name] + later, seen).names == seq![name] + inner.names
                + rest.names
            &&& visit(index, seq![name] + later, seen).failure == rest.failure
        }),
{
    let refs = seq![name] + later;
    assert(refs[0] == name);
    assert(refs.drop_first() =~= later);
    lemma_unseen_shrinks(index, seen, name, seen.insert(name));
}

/// The order of discovery on a tree of messages that are known by their
/// references alone: a root that refers to one message, which refers to a
/// header, itself referring to a stamp, and to a transform, itself referring
/// to a vector and a quaternion. Whatever else the seven texts hold, the six
/// that follow the root are emitted depth first and in the order of the
/// fields, and flattening succeeds.
pub proof fn lemma_flatten_of_nested_messages(
    index: Map<Seq<char>, SourceView>,
    root: Seq<char>,
    stamped: Seq<char>,
    header: Seq<char>,
    stamp: Seq<char>,
    transform: Seq<char>,
    vector: Seq<char>,
    quaternion: Seq<char>,
)
    requires
        index.dom().finite(),
        seq![root, stamped, header, stamp, transform, vector, quaternion].no_duplicates(),
        resolved(index, root) is Ok,
        resolved(index, stamped) is Ok,
        resolved(index, header) is Ok,
        resolved(index, stamp) is Ok,
        resolved(index, transform) is Ok,
        resolved(index, vector) is Ok,
        resolved(index, quaternion) is Ok,
        schema_references(index, root) == seq![stamped],
        schema_references(index, stamped) == seq![header, transform],
        schema_references(index, header) == seq![stamp],
        schema_references(index, transform) == seq![vector, quaternion],
        schema_references(index, stamp) == Seq::<Seq<char>>::empty(),
        schema_references(index, vector) == Seq::<Seq<char>>::empty(),
        schema_references(index, quaternion) == Seq::<Seq<char>>::empty(),
    ensures
        dependencies(index, root) == seq![stamped, header, stamp, transform, vector, quaternion],
        flattened(index, root) == Ok::<Seq<char>, Failure>(
            joined(
                seq![resolved(index, root)->Ok_0] + blocks_of(
                    index,
                    seq![stamped, header, stamp, transform, vector, quaternion],
                ),
                "\n\n"@,
            ),
        ),
{
    let all = seq![root, stamped, header, stamp, transform, vector, quaternion];
    assert(all[0] == root && all[1] == stamped && all[2] == header && all[3] == stamp && all[4]
        == transform && all[5] == vector && all[6] == quaternion);
    let none = Seq::<Seq<char>>::empty();
    let s0 = set![root];
    let s1 = s0.insert(stamped);
    let s2 = s1.insert(header);

    // The header and its stamp.
    lemma_visit_leaf(index, stamp, none, s2);
    assert(seq![stamp] + none =~= seq![stamp]);
    let of_header = visit(index, seq![stamp], s2);
    assert(of_header.names =~= seq![stamp]);
    assert(seq![stamp][0] == stamp);
    let s3 = s2.union(of_header.names.to_set());
    assert(s3 =~= s2.insert(stamp));

    // The transform and its two leaves.
    let s4 = s3.insert(transform);
    let s5 = s4.insert(vector);
    lemma_visit_leaf(index, quaternion, none, s5);
    assert(seq![quaternion] + none =~= seq![quaternion]);
    lemma_visit_leaf(index, vector, seq![quaternion], s4);
    let of_transform = visit(index, seq![vector, quaternion], s4);
    assert(seq![vector] + seq![quaternion] =~= seq![vector, quaternion]);
    assert(of_transform.names =~= seq![vector, quaternion]);
    lemma_visit_node(index, transform, none, s3);
    assert(seq![transform] + none =~= seq![transform]);
    let after_header = visit(index, seq![transform], s3);
    assert(after_header.names =~= seq![transform, vector, quaternion]);

    // The message that holds both, and the root.
    lemma_visit_node(index, header, seq![transform], s1);
    assert(seq![header] + seq![transform] =~= seq![header, transform]);
    let of_stamped = visit(index, seq![header, transform], s1);
    assert(of_stamped.names =~= seq![header, stamp, transform, vector, quaternion]);
    lemma_visit_node(index, stamped, none, s0);
    assert(seq![stamped] + none =~= seq![stamped]);
    let of_root = visit(index, seq![stamped], s0);
    assert(of_root.names =~= seq![stamped, header, stamp, transform, vector, quaternion]);
    lemma_dependencies_by_visit(index, root);
}

} // verus!
