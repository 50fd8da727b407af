//! The type reference parser: what the type word of a field declaration
//! denotes.
//!
//! A raw type token is a base name followed by any number of array suffixes
//! (`[]`, `[N]`, `[<=N]`). The base is either a builtin primitive, among
//! them the bounded strings `string<=N` and `wstring<=N`, or the name of
//! another schema, which is completed to `package/msg/Type` with the package
//! of the schema that holds the field.

use vstd::prelude::*;
use vstd::string::StrSliceExecFns;
use crate::resolver::CentralSchemaResolver;
use crate::text::{
    all_digits, are_digits, contains, contains_seq, eq_str, find, first_index, from_chars,
    is_digit,
    has_prefix, last_index, lemma_first_index, lemma_first_index_bounds, lemma_last_index,
    lemma_last_index_bounds, lemma_last_index_concat, lemma_trimmed_keeps, push_all, rfind,
    starts_with_at, subvec, to_chars, trim, trimmed,
};

verus! {

// ----------------------------------------------------------------------
// Array suffixes
// ----------------------------------------------------------------------

/// What follows a leading `<=` in `s`, if `s` begins with one.
pub open spec fn after_at_most(s: Seq<char>) -> Option<Seq<char>> {
    if s.len() >= 2 && s[0] == '<' && s[1] == '=' {
        Some(s.skip(2))
    } else {
        None
    }
}

/// Whether `inner` may stand between the brackets of an array suffix: once
/// trimmed it is empty, or digits only, or `<=` followed by digits only.
/// Nothing but digits may follow the `<=`, white space neither; the digits
/// may be missing.
pub open spec fn is_array_bound(inner: Seq<char>) -> bool {
    let t = trimmed(inner);
    all_digits(t) || (after_at_most(t) matches Some(d) && all_digits(d))
}

/// The position of the `[` that opens the array suffix at the end of `s`,
/// or `-1` where `s` does not end in one. The suffix runs from the last `[`
/// of `s`, which may not be its first character, to a `]` that ends `s`, and
/// what stands between them is an array bound.
pub open spec fn array_suffix_start(s: Seq<char>) -> int {
    let lb = last_index(s, '[');
    if 0 < lb < s.len() && s.last() == ']' && is_array_bound(s.subrange(lb + 1, s.len() - 1)) {
        lb
    } else {
        -1
    }
}

/// `s` without the array suffixes at its end: they are taken off one by one
/// until what is left does not end in one.
pub open spec fn stripped(s: Seq<char>) -> Seq<char>
    decreases s.len(),
{
    let lb = array_suffix_start(s);
    if 0 < lb < s.len() {
        stripped(s.take(lb))
    } else {
        s
    }
}

/// Stripping takes characters off the end only, and what it returns ends in
/// no array suffix; so stripping twice is stripping once.
pub proof fn lemma_stripped_is_fixed(s: Seq<char>)
    ensures
        stripped(s).len() <= s.len(),
        stripped(s) == s.take(stripped(s).len() as int),
        array_suffix_start(stripped(s)) == -1,
        stripped(stripped(s)) == stripped(s),
    decreases s.len(),
{
    let lb = array_suffix_start(s);
    if 0 < lb < s.len() {
        let t = s.take(lb);
        lemma_stripped_is_fixed(t);
        assert(t.take(stripped(t).len() as int) =~= s.take(stripped(t).len() as int));
    } else {
        assert(s.take(s.len() as int) =~= s);
    }
}

/// A name followed by an array suffix strips to what the name alone strips
/// to: stripping `base[inner]` gives the same as stripping `base`, for every
/// array bound `inner` without `[` and every `base` that is not empty.
pub proof fn lemma_array_suffix_is_stripped(base: Seq<char>, inner: Seq<char>)
    requires
        base.len() > 0,
        is_array_bound(inner),
        forall|i: int| 0 <= i < inner.len() ==> inner[i] != '[',
    ensures
        stripped(base + seq!['['] + inner + seq![']']) == stripped(base),
{
    let s = base + seq!['['] + inner + seq![']'];
    let lb = base.len() as int;
    assert(s[lb] == '[');
    assert forall|j: int| lb < j < s.len() implies s[j] != '[' by {
        if j < s.len() - 1 {
            assert(s[j] == inner[j - lb - 1]);
        }
    }
    lemma_last_index(s, '[', lb);
    assert(s.subrange(lb + 1, s.len() - 1) =~= inner);
    assert(s.take(lb) =~= base);
}

/// Whether `tail` is a run of array suffixes and nothing else: it is empty,
/// or it ends in a group `[i]`, where `i` is an array bound, and what
/// stands before that group is such a run again.
pub open spec fn is_suffix_run(tail: Seq<char>) -> bool
    decreases tail.len(),
{
    if tail.len() == 0 {
        true
    } else {
        let k = last_index(tail, '[');
        0 <= k < tail.len() - 1 && tail.last() == ']' && is_array_bound(
            tail.subrange(k + 1, tail.len() - 1),
        ) && is_suffix_run(tail.take(k))
    }
}

/// Stripping takes a run of array suffixes off the end and nothing else:
/// the result is a prefix of `s`, and what follows it in `s` is made of
/// groups `[i]`, each `i` an array bound.
pub proof fn lemma_stripped_removes_suffixes(s: Seq<char>)
    ensures
        stripped(s).len() <= s.len(),
        s == stripped(s) + s.skip(stripped(s).len() as int),
        is_suffix_run(s.skip(stripped(s).len() as int)),
    decreases s.len(),
{
    let n = stripped(s).len() as int;
    lemma_stripped_is_fixed(s);
    assert(s =~= s.take(n) + s.skip(n));
    let lb = array_suffix_start(s);
    if 0 < lb < s.len() {
        let t = s.take(lb);
        lemma_stripped_removes_suffixes(t);
        let tail = s.skip(n);
        let k = lb - n;
        lemma_last_index_bounds(s, '[');
        assert(tail[k] == s[lb]);
        assert forall|j: int| k < j < tail.len() implies tail[j] != '[' by {
            assert(tail[j] == s[j + n]);
        }
        lemma_last_index(tail, '[', k);
        assert(tail.last() == s.last());
        assert(tail.subrange(k + 1, tail.len() - 1) =~= s.subrange(lb + 1, s.len() - 1));
        assert(tail.take(k) =~= t.skip(n));
    } else {
        assert(s.skip(n).len() == 0);
    }
}

fn array_bound(inner: &Vec<char>) -> (r: bool)
    ensures
        r == is_array_bound(inner@),
{
    let t = trim(inner);
    if are_digits(&t) {
        return true;
    }
    if t.len() >= 2 && t[0] == '<' && t[1] == '=' {
        let d = subvec(&t, 2, t.len());
        are_digits(&d)
    } else {
        false
    }
}

/// The number of characters of `v` that are left once its array suffixes
/// are taken off.
pub fn stripped_len(v: &Vec<char>) -> (n: usize)
    ensures
        n <= v.len(),
        stripped(v@) == v@.take(n as int),
{
    let mut cur = subvec(v, 0, v.len());
    let mut done = false;
    proof {
        assert(cur@ =~= v@);
        assert(v@.take(v.len() as int) =~= v@);
    }
    while !done
        invariant
            cur.len() <= v.len(),
            cur@ == v@.take(cur.len() as int),
            stripped(v@) == stripped(cur@),
            done ==> stripped(cur@) == cur@,
        decreases cur.len(), (if done { 0int } else { 1int }),
    {
        let n = cur.len();
        proof {
            lemma_last_index_bounds(cur@, '[');
        }
        match rfind(&cur, '[') {
            Some(lb) => {
                if lb > 0 && cur[n - 1] == ']' {
                    let inner = subvec(&cur, lb + 1, n - 1);
                    if array_bound(&inner) {
                        let ghost before = cur@;
                        cur.truncate(lb);
                        proof {
                            assert(cur@ =~= before.take(lb as int));
                            assert(cur@ =~= v@.take(lb as int));
                        }
                    } else {
                        done = true;
                    }
                } else {
                    done = true;
                }
            },
            None => {
                done = true;
            },
        }
    }
    cur.len()
}

/// Takes the array suffixes off the end of a type token: `[]`, `[N]` and
/// `[<=N]`, as many as there are. A bracket at the end that holds anything
/// else is left in place, and so is everything before it.
pub fn strip_array_suffix(s: &str) -> (r: &str)
    ensures
        r@ == stripped(s@),
{
    let chars = to_chars(s);
    let n = stripped_len(&chars);
    s.substring_char(0, n)
}

// ----------------------------------------------------------------------
// Builtin types
// ----------------------------------------------------------------------

/// The names of the primitive types.
pub open spec fn is_primitive(s: Seq<char>) -> bool {
    ||| s == "bool"@
    ||| s == "byte"@
    ||| s == "char"@
    ||| s == "int8"@
    ||| s == "uint8"@
    ||| s == "int16"@
    ||| s == "uint16"@
    ||| s == "int32"@
    ||| s == "uint32"@
    ||| s == "int64"@
    ||| s == "uint64"@
    ||| s == "float32"@
    ||| s == "float64"@
    ||| s == "string"@
    ||| s == "wstring"@
}

/// Whether `s` is `word` alone, or `word` followed by `<=` and one or more
/// digits.
pub open spec fn is_bounded(s: Seq<char>, word: Seq<char>) -> bool {
    has_prefix(s, word) && {
        let rest = s.skip(word.len() as int);
        rest.len() == 0 || (after_at_most(rest) matches Some(d) && d.len() > 0 && all_digits(d))
    }
}

/// Whether a raw type token denotes a builtin type: without its array
/// suffixes it is a primitive name or a bounded string.
pub open spec fn is_builtin(raw: Seq<char>) -> bool {
    let base = stripped(raw);
    is_primitive(base) || is_bounded(base, "string"@) || is_bounded(base, "wstring"@)
}

/// A sequence that does not end in `]` has no array suffix to strip.
pub proof fn lemma_stripped_without_bracket(s: Seq<char>)
    requires
        s.len() == 0 || s.last() != ']',
    ensures
        stripped(s) == s,
{
}

/// Every primitive name is a builtin type.
pub proof fn lemma_primitive_is_builtin(name: Seq<char>)
    requires
        is_primitive(name),
    ensures
        is_builtin(name),
{
    reveal_strlit("bool");
    reveal_strlit("byte");
    reveal_strlit("char");
    reveal_strlit("int8");
    reveal_strlit("uint8");
    reveal_strlit("int16");
    reveal_strlit("uint16");
    reveal_strlit("int32");
    reveal_strlit("uint32");
    reveal_strlit("int64");
    reveal_strlit("uint64");
    reveal_strlit("float32");
    reveal_strlit("float64");
    reveal_strlit("string");
    reveal_strlit("wstring");
    lemma_stripped_without_bracket(name);
}

/// Every bounded string, `string<=N` or `wstring<=N` with one digit or
/// more, is a builtin type; `string<=` and `wstring<=` alone are not.
pub proof fn lemma_bounded_is_builtin(name: Seq<char>)
    requires
        is_bounded(name, "string"@) || is_bounded(name, "wstring"@),
    ensures
        is_builtin(name),
        !is_builtin("string"@ + seq!['<', '=']),
        !is_builtin("wstring"@ + seq!['<', '=']),
{
    reveal_strlit("string");
    reveal_strlit("wstring");
    let word = if is_bounded(name, "string"@) {
        "string"@
    } else {
        "wstring"@
    };
    let rest = name.skip(word.len() as int);
    if rest.len() == 0 {
        assert(name.take(word.len() as int) =~= name);
    } else {
        let d = rest.skip(2);
        assert(is_digit(d[d.len() - 1]));
        assert(name.last() == d[d.len() - 1]);
    }
    lemma_stripped_without_bracket(name);
    lemma_unbounded_is_custom("string"@);
    lemma_unbounded_is_custom("wstring"@);
}

proof fn lemma_unbounded_is_custom(word: Seq<char>)
    requires
        word == "string"@ || word == "wstring"@,
    ensures
        !is_builtin(word + seq!['<', '=']),
{
    reveal_strlit("bool");
    reveal_strlit("byte");
    reveal_strlit("char");
    reveal_strlit("int8");
    reveal_strlit("uint8");
    reveal_strlit("int16");
    reveal_strlit("uint16");
    reveal_strlit("int32");
    reveal_strlit("uint32");
    reveal_strlit("int64");
    reveal_strlit("uint64");
    reveal_strlit("float32");
    reveal_strlit("float64");
    reveal_strlit("string");
    reveal_strlit("wstring");
    let s = word + seq!['<', '='];
    assert(s.last() == '=');
    lemma_stripped_without_bracket(s);
    assert(s[0] == word[0]);
    if has_prefix(s, "string"@) {
        assert(s.take(6)[0] == "string"@[0]);
        assert(word == "string"@);
        assert(s.skip(6) =~= seq!['<', '=']);
        assert(s.skip(6).skip(2).len() == 0);
    }
    if has_prefix(s, "wstring"@) {
        assert(s.take(7)[0] == "wstring"@[0]);
        assert(word == "wstring"@);
        assert(s.skip(7) =~= seq!['<', '=']);
        assert(s.skip(7).skip(2).len() == 0);
    }
}

fn primitive(base: &Vec<char>) -> (r: bool)
    ensures
        r == is_primitive(base@),
{
    eq_str(base, "bool")
        || eq_str(base, "byte")
        || eq_str(base, "char")
        || eq_str(base, "int8")
        || eq_str(base, "uint8")
        || eq_str(base, "int16")
        || eq_str(base, "uint16")
        || eq_str(base, "int32")
        || eq_str(base, "uint32")
        || eq_str(base, "int64")
        || eq_str(base, "uint64")
        || eq_str(base, "float32")
        || eq_str(base, "float64")
        || eq_str(base, "string")
        || eq_str(base, "wstring")
}

fn bounded(base: &Vec<char>, word: &str) -> (r: bool)
    ensures
        r == is_bounded(base@, word@),
{
    let w = to_chars(word);
    proof {
        assert(base@.skip(0) =~= base@);
    }
    if !starts_with_at(base, 0, &w) {
        return false;
    }
    let rest = subvec(base, w.len(), base.len());
    proof {
        assert(rest@ =~= base@.skip(word@.len() as int));
    }
    if rest.len() == 0 {
        return true;
    }
    if rest.len() > 2 && rest[0] == '<' && rest[1] == '=' {
        let d = subvec(&rest, 2, rest.len());
        proof {
            assert(d@ =~= rest@.skip(2));
        }
        are_digits(&d)
    } else {
        false
    }
}

/// Whether a raw type token, given by its characters, denotes a builtin
/// type.
pub fn builtin_chars(raw: &Vec<char>) -> (r: bool)
    ensures
        r == is_builtin(raw@),
{
    let n = stripped_len(raw);
    let base = subvec(raw, 0, n);
    primitive(&base) || bounded(&base, "string") || bounded(&base, "wstring")
}

// ----------------------------------------------------------------------
// Custom types
// ----------------------------------------------------------------------

/// The fully-qualified name that a base name stands for inside `package`.
///
/// A base without `/` names a type of `package`. A base that holds `/msg/`
/// is qualified already. A base of two segments, `pkg/Type`, names
/// `pkg/msg/Type`. A base of any other shape names nothing.
pub open spec fn qualified(base: Seq<char>, package: Seq<char>) -> Option<Seq<char>> {
    let first = first_index(base, '/');
    if first == base.len() {
        Some(package + "/msg/"@ + base)
    } else if contains_seq(base, "/msg/"@) {
        Some(base)
    } else if first == last_index(base, '/') {
        Some(base.take(first) + "/msg/"@ + base.skip(first + 1))
    } else {
        None
    }
}

/// The schema that a raw type token refers to, seen from `package`: none
/// for a builtin type, and none for a name that cannot be qualified.
pub open spec fn custom_reference(raw: Seq<char>, package: Seq<char>) -> Option<Seq<char>> {
    if is_builtin(raw) {
        None
    } else {
        qualified(stripped(raw), package)
    }
}

/// A name without `/` is completed with the package of the schema that
/// holds it.
pub proof fn lemma_unqualified_takes_package(base: Seq<char>, package: Seq<char>)
    requires
        forall|i: int| 0 <= i < base.len() ==> base[i] != '/',
    ensures
        qualified(base, package) == Some(package + "/msg/"@ + base),
{
    lemma_first_index(base, '/', base.len() as int);
}

/// A name of two segments, `pkg/Type` with no `/` in either, stands for
/// `pkg/msg/Type`, whatever the package of the schema that holds it.
pub proof fn lemma_two_segments_get_msg(pkg: Seq<char>, name: Seq<char>, package: Seq<char>)
    requires
        forall|i: int| 0 <= i < pkg.len() ==> pkg[i] != '/',
        forall|i: int| 0 <= i < name.len() ==> name[i] != '/',
    ensures
        qualified(pkg + seq!['/'] + name, package) == Some(pkg + "/msg/"@ + name),
{
    reveal_strlit("/msg/");
    let base = pkg + seq!['/'] + name;
    let at = pkg.len() as int;
    assert(base[at] == '/');
    assert forall|j: int| 0 <= j < at implies base[j] != '/' by {
        assert(base[j] == pkg[j]);
    }
    assert forall|j: int| at < j < base.len() implies base[j] != '/' by {
        assert(base[j] == name[j - at - 1]);
    }
    lemma_first_index(base, '/', at);
    lemma_last_index(base, '/', at);
    assert(base.take(at) =~= pkg);
    assert(base.skip(at + 1) =~= name);
    assert forall|i: int| 0 <= i <= base.len() implies !has_prefix(
        #[trigger] base.skip(i),
        "/msg/"@,
    ) by {
        let rest = base.skip(i);
        if has_prefix(rest, "/msg/"@) {
            let p = rest.take(5);
            assert(p[0] == '/' && p[4] == '/');
            assert(rest[0] == base[i] && rest[4] == base[i + 4]);
        }
    }
}

/// A name that holds `/msg/` is qualified already: it stands for itself,
/// whatever the package of the schema that holds it.
pub proof fn lemma_qualified_passes(base: Seq<char>, package: Seq<char>)
    requires
        contains_seq(base, "/msg/"@),
    ensures
        qualified(base, package) == Some(base),
{
    reveal_strlit("/msg/");
    let i = choose|i: int| 0 <= i <= base.len() && has_prefix(#[trigger] base.skip(i), "/msg/"@);
    let rest = base.skip(i);
    assert(rest.take(5)[0] == '/');
    assert(rest[0] == base[i]);
    lemma_first_index_bounds(base, '/');
}

/// Whether `s` ends in a group `[i]` with an array bound `i`, the `[` being
/// the last of `s`, wherever it stands.
pub open spec fn ends_in_group(s: Seq<char>) -> bool {
    let k = last_index(s, '[');
    k >= 0 && s.last() == ']' && is_array_bound(s.subrange(k + 1, s.len() - 1))
}

/// No array bound holds a `/`.
proof fn lemma_bound_has_no_slash(inner: Seq<char>)
    requires
        inner.contains('/'),
    ensures
        !is_array_bound(inner),
{
    lemma_trimmed_keeps(inner, '/');
    let t = trimmed(inner);
    let i = choose|i: int| 0 <= i < t.len() && t[i] == '/';
    assert(!is_digit(t[i]));
    if after_at_most(t) is Some {
        let d = t.skip(2);
        assert(i >= 2);
        assert(d[i - 2] == '/');
        assert(!is_digit(d[i - 2]));
    }
}

/// What follows a prefix that ends in `/` keeps its shape: where `tail`
/// ends in no group, `pre + tail` has no array suffix.
proof fn lemma_no_suffix_behind_slash(pre: Seq<char>, tail: Seq<char>)
    requires
        pre.len() > 0,
        pre.last() == '/',
        !ends_in_group(tail),
    ensures
        array_suffix_start(pre + tail) == -1,
{
    let q = pre + tail;
    lemma_last_index_concat(pre, tail, '[');
    lemma_last_index_bounds(pre, '[');
    lemma_last_index_bounds(tail, '[');
    let k = last_index(tail, '[');
    let lb = last_index(q, '[');
    if tail.len() == 0 {
        assert(q =~= pre);
    } else if k >= 0 {
        assert(q.last() == tail.last());
        if tail.last() == ']' {
            assert(tail[k] == '[');
            assert(q.subrange(lb + 1, q.len() - 1) =~= tail.subrange(k + 1, tail.len() - 1));
        }
    } else if lb >= 0 {
        let inner = q.subrange(lb + 1, q.len() - 1);
        let at = pre.len() - 1;
        assert(pre[lb] == '[');
        assert(lb < at);
        assert(inner[at - lb - 1] == q[at]);
        assert(q[at] == pre[at]);
        assert(inner.contains('/'));
        lemma_bound_has_no_slash(inner);
    }
}

/// A name that holds `/` and has no array suffix is no builtin type.
proof fn lemma_name_with_slash_is_custom(q: Seq<char>)
    requires
        q.contains('/'),
        array_suffix_start(q) == -1,
    ensures
        stripped(q) == q,
        !is_builtin(q),
{
    reveal_strlit("bool");
    reveal_strlit("byte");
    reveal_strlit("char");
    reveal_strlit("int8");
    reveal_strlit("uint8");
    reveal_strlit("int16");
    reveal_strlit("uint16");
    reveal_strlit("int32");
    reveal_strlit("uint32");
    reveal_strlit("int64");
    reveal_strlit("uint64");
    reveal_strlit("float32");
    reveal_strlit("float64");
    reveal_strlit("string");
    reveal_strlit("wstring");
    let i = choose|i: int| 0 <= i < q.len() && q[i] == '/';
    assert(!is_digit('/'));
    lemma_slash_breaks_bound(q, "string"@, i);
    lemma_slash_breaks_bound(q, "wstring"@, i);
}

proof fn lemma_slash_breaks_bound(q: Seq<char>, word: Seq<char>, i: int)
    requires
        0 <= i < q.len(),
        q[i] == '/',
        forall|j: int| 0 <= j < word.len() ==> word[j] != '/',
    ensures
        !is_bounded(q, word),
{
    if has_prefix(q, word) {
        let n = word.len() as int;
        if i < n {
            assert(q.take(n)[i] == q[i]);
        } else {
            let rest = q.skip(n);
            assert(rest[i - n] == '/');
            if after_at_most(rest) is Some {
                let d = rest.skip(2);
                assert(i - n >= 2);
                assert(d[i - n - 2] == '/');
                assert(!is_digit(d[i - n - 2]));
            }
        }
    }
}

/// A name that classification gave stands for itself, in whatever package
/// it is read: classifying it again changes nothing. This holds of every
/// token whose base does not begin with `[`.
pub proof fn lemma_reference_is_stable(raw: Seq<char>, package: Seq<char>, other: Seq<char>)
    requires
        custom_reference(raw, package) is Some,
        stripped(raw).len() == 0 || stripped(raw)[0] != '[',
    ensures
        custom_reference(custom_reference(raw, package)->0, other) == custom_reference(
            raw,
            package,
        ),
{
    reveal_strlit("/msg/");
    let base = stripped(raw);
    let q = custom_reference(raw, package)->0;
    let sep = "/msg/"@;
    lemma_stripped_is_fixed(raw);
    lemma_first_index_bounds(base, '/');
    lemma_last_index_bounds(base, '[');
    let first = first_index(base, '/');
    if first == base.len() {
        let pre = package + sep;
        assert(q =~= pre + base);
        assert(pre.last() == sep[4]);
        lemma_no_suffix_behind_slash(pre, base);
        assert(q[package.len() as int] == sep[0]);
        assert(q.contains('/'));
        lemma_name_with_slash_is_custom(q);
        assert(q.skip(package.len() as int).take(5) =~= sep);
        lemma_qualified_passes(q, other);
    } else if contains_seq(base, sep) {
        lemma_qualified_passes(base, other);
    } else {
        let x = base.take(first);
        let y = base.skip(first + 1);
        let pre = x + sep;
        assert(q =~= pre + y);
        assert(pre.last() == sep[4]);
        let w = x + seq!['/'];
        assert(base =~= w + y);
        lemma_last_index_concat(w, y, '[');
        lemma_last_index_bounds(y, '[');
        if ends_in_group(y) {
            let k = last_index(y, '[');
            let lb = w.len() + k;
            assert(y[k] == '[');
            assert(base.last() == y.last());
            assert(base.subrange(lb + 1, base.len() - 1) =~= y.subrange(k + 1, y.len() - 1));
        }
        lemma_no_suffix_behind_slash(pre, y);
        assert(q[x.len() as int] == sep[0]);
        assert(q.contains('/'));
        lemma_name_with_slash_is_custom(q);
        assert(q.skip(x.len() as int).take(5) =~= sep);
        lemma_qualified_passes(q, other);
    }
}

fn qualify(base: &Vec<char>, package: &Vec<char>) -> (r: Option<Vec<char>>)
    ensures
        match r {
            Some(name) => qualified(base@, package@) == Some(name@),
            None => qualified(base@, package@) is None,
        },
{
    let sep = to_chars("/msg/");
    let first = find(base, '/');
    if first == base.len() {
        let mut out = subvec(package, 0, package.len());
        proof {
            assert(out@ =~= package@);
        }
        push_all(&mut out, &sep);
        push_all(&mut out, base);
        Some(out)
    } else if contains(base, &sep) {
        let out = subvec(base, 0, base.len());
        proof {
            assert(out@ =~= base@);
        }
        Some(out)
    } else {
        match rfind(base, '/') {
            Some(last) => {
                if last == first {
                    let mut out = subvec(base, 0, first);
                    let tail = subvec(base, first + 1, base.len());
                    push_all(&mut out, &sep);
                    push_all(&mut out, &tail);
                    Some(out)
                } else {
                    None
                }
            },
            None => None,
        }
    }
}

/// The schema that a raw type token refers to, seen from `package`, both
/// given by their characters.
pub fn reference_chars(raw: &Vec<char>, package: &Vec<char>) -> (r: Option<Vec<char>>)
    ensures
        match r {
            Some(name) => custom_reference(raw@, package@) == Some(name@),
            None => custom_reference(raw@, package@) is None,
        },
{
    if builtin_chars(raw) {
        return None;
    }
    let n = stripped_len(raw);
    let base = subvec(raw, 0, n);
    qualify(&base, package)
}

// ----------------------------------------------------------------------
// Classification
// ----------------------------------------------------------------------

/// What a raw type token denotes.
#[derive(Debug, Clone, PartialEq, Eq)]
pub enum TypeRef {
    /// A builtin type: nothing to resolve.
    Builtin,
    /// Another schema, by its fully-qualified name.
    Custom(String),
    /// A name of a shape that cannot be qualified. Such a field is not
    /// followed.
    Unresolvable,
}

/// The model of a [`TypeRef`].
pub enum TypeRefView {
    Builtin,
    Custom(Seq<char>),
    Unresolvable,
}

impl View for TypeRef {
    type V = TypeRefView;

    open spec fn view(&self) -> TypeRefView {
        match self {
            TypeRef::Builtin => TypeRefView::Builtin,
            TypeRef::Custom(name) => TypeRefView::Custom(name@),
            TypeRef::Unresolvable => TypeRefView::Unresolvable,
        }
    }
}

/// What the raw type token `raw` denotes inside `package`. It depends on
/// the token and the package alone.
pub open spec fn classified(raw: Seq<char>, package: Seq<char>) -> TypeRefView {
    if is_builtin(raw) {
        TypeRefView::Builtin
    } else {
        match qualified(stripped(raw), package) {
            Some(name) => TypeRefView::Custom(name),
            None => TypeRefView::Unresolvable,
        }
    }
}

/// The model of an optional string.
pub open spec fn text_of(o: Option<String>) -> Option<Seq<char>> {
    match o {
        Some(s) => Some(s@),
        None => None,
    }
}

/// Classifies the type word of a field declaration of a schema of
/// `current_package`.
pub fn classify(raw_token: &str, current_package: &str) -> (r: TypeRef)
    ensures
        r@ == classified(raw_token@, current_package@),
{
    let raw = to_chars(raw_token);
    if builtin_chars(&raw) {
        return TypeRef::Builtin;
    }
    let package = to_chars(current_package);
    match reference_chars(&raw, &package) {
        Some(name) => TypeRef::Custom(from_chars(&name)),
        None => TypeRef::Unresolvable,
    }
}

impl CentralSchemaResolver {
    /// Whether a raw type token denotes a builtin type, array suffixes
    /// aside: a primitive name, or `string` or `wstring` with a bound.
    pub fn is_builtin_type(&self, raw: &str) -> (r: bool)
        ensures
            r == is_builtin(raw@),
    {
        let chars = to_chars(raw);
        builtin_chars(&chars)
    }

    /// The fully-qualified name of the schema that a raw type token refers
    /// to, seen from `current_package`; `None` for a builtin type and for a
    /// name that cannot be qualified.
    pub fn resolve_custom_type(&self, raw: &str, current_package: &str) -> (r: Option<String>)
        ensures
            text_of(r) == custom_reference(raw@, current_package@),
    {
        let chars = to_chars(raw);
        let package = to_chars(current_package);
        match reference_chars(&chars, &package) {
            Some(name) => Some(from_chars(&name)),
            None => None,
        }
    }
}

} // verus!
