//! File-name text: ASCII case folding, the stem/extension split of a file
//! name, and the code-point order of names.

use vstd::prelude::*;
use vstd::string::StrSliceExecFns;

verus! {

// ----- ASCII case folding -----

/// The code of `c` with ASCII `A`..=`Z` mapped to `a`..=`z`; every other
/// character keeps its code.
pub open spec fn ascii_folded(c: char) -> u32 {
    if 'A' <= c && c <= 'Z' {
        (c as u32 + 32) as u32
    } else {
        c as u32
    }
}

/// `a` and `b` are equal once ASCII letters are folded to lower case.
pub open spec fn eq_ignore_ascii_case(a: Seq<char>, b: Seq<char>) -> bool {
    &&& a.len() == b.len()
    &&& forall|i: int| 0 <= i < a.len() ==> #[trigger] ascii_folded(a[i]) == ascii_folded(b[i])
}

/// Case-insensitive equality of names is an equivalence: reflexive,
/// symmetric and transitive.
pub proof fn lemma_eq_ignore_ascii_case_equivalence(a: Seq<char>, b: Seq<char>, c: Seq<char>)
    ensures
        eq_ignore_ascii_case(a, a),
        eq_ignore_ascii_case(a, b) ==> eq_ignore_ascii_case(b, a),
        eq_ignore_ascii_case(a, b) && eq_ignore_ascii_case(b, c) ==> eq_ignore_ascii_case(a, c),
{
    if eq_ignore_ascii_case(a, b) && eq_ignore_ascii_case(b, c) {
        assert forall|i: int| 0 <= i < a.len() implies #[trigger] ascii_folded(a[i]) == ascii_folded(
            c[i],
        ) by {
            assert(ascii_folded(a[i]) == ascii_folded(b[i]));
            assert(ascii_folded(b[i]) == ascii_folded(c[i]));
        }
    }
}

proof fn lemma_folded_equal(c: char, d: char)
    ensures
        ascii_folded(c) == ascii_folded(d) <==> ({
            ||| c == d
            ||| 'A' <= c && c <= 'Z' && d as int == c as int + 32
            ||| 'A' <= d && d <= 'Z' && c as int == d as int + 32
        }),
{
}

/// Ignoring ASCII case identifies nothing but an ASCII letter with its other
/// case: two texts are equal ignoring ASCII case exactly when they have the
/// same length and each pair of characters is either equal, or an upper-case
/// ASCII letter and the lower-case letter 32 code points above it. Digits,
/// punctuation and non-ASCII characters must match exactly.
pub proof fn lemma_eq_ignore_ascii_case_meaning(a: Seq<char>, b: Seq<char>)
    ensures
        eq_ignore_ascii_case(a, b) <==> (a.len() == b.len() && forall|i: int|
            0 <= i < a.len() ==> {
                ||| #[trigger] a[i] == b[i]
                ||| 'A' <= a[i] && a[i] <= 'Z' && b[i] as int == a[i] as int + 32
                ||| 'A' <= b[i] && b[i] <= 'Z' && a[i] as int == b[i] as int + 32
            }),
{
    assert forall|i: int| 0 <= i < a.len() implies (ascii_folded(a[i]) == ascii_folded(b[i]) <==> ({
        ||| a[i] == b[i]
        ||| 'A' <= a[i] && a[i] <= 'Z' && b[i] as int == a[i] as int + 32
        ||| 'A' <= b[i] && b[i] <= 'Z' && a[i] as int == b[i] as int + 32
    })) by {
        lemma_folded_equal(a[i], b[i]);
    }
}

fn fold_char(c: char) -> (code: u32)
    ensures
        code == ascii_folded(c),
{
    let code = c as u32;
    if 'A' <= c && c <= 'Z' {
        code + 32
    } else {
        code
    }
}

/// Whether `a` and `b` are equal ignoring ASCII case, as
/// `str::eq_ignore_ascii_case` decides it.
pub fn names_eq_ignore_ascii_case(a: &str, b: &str) -> (equal: bool)
    ensures
        equal == eq_ignore_ascii_case(a@, b@),
        equal <==> (a@.len() == b@.len() && forall|i: int|
            0 <= i < a@.len() ==> {
                ||| #[trigger] a@[i] == b@[i]
                ||| 'A' <= a@[i] && a@[i] <= 'Z' && b@[i] as int == a@[i] as int + 32
                ||| 'A' <= b@[i] && b@[i] <= 'Z' && a@[i] as int == b@[i] as int + 32
            }),
{
    proof {
        lemma_eq_ignore_ascii_case_meaning(a@, b@);
    }
    let n = a.unicode_len();
    if n != b.unicode_len() {
        return false;
    }
    let mut i: usize = 0;
    while i < n
        invariant
            n == a@.len(),
            n == b@.len(),
            0 <= i <= n,
            forall|j: int| 0 <= j < i ==> #[trigger] ascii_folded(a@[j]) == ascii_folded(b@[j]),
        decreases n - i,
    {
        if fold_char(a.get_char(i)) != fold_char(b.get_char(i)) {
            return false;
        }
        i = i + 1;
    }
    true
}

// ----- stem and extension of a file name -----

/// Index of the last `.` in `s`, or -1 when there is none.
pub open spec fn last_dot(s: Seq<char>) -> int
    decreases s.len(),
{
    if s.len() == 0 {
        -1
    } else if s.last() == '.' {
        s.len() - 1
    } else {
        last_dot(s.drop_last())
    }
}

/// Whether a file name has an extension: a `.` that is not its first
/// character, and the name is not `..`.
pub open spec fn has_extension(name: Seq<char>) -> bool {
    last_dot(name) > 0 && name != seq!['.', '.']
}

/// The stem of a file name: the part before the last `.` when the name has
/// an extension, and the whole name otherwise.
pub open spec fn stem_of(name: Seq<char>) -> Seq<char> {
    if has_extension(name) {
        name.take(last_dot(name))
    } else {
        name
    }
}

/// The extension of a file name: the part after the last `.`, if it has one.
pub open spec fn extension_of(name: Seq<char>) -> Option<Seq<char>> {
    if has_extension(name) {
        Some(name.skip(last_dot(name) + 1))
    } else {
        None
    }
}

proof fn lemma_last_dot_bounds(s: Seq<char>)
    ensures
        -1 <= last_dot(s) < s.len(),
        last_dot(s) >= 0 ==> s[last_dot(s)] == '.',
        forall|j: int| last_dot(s) < j < s.len() ==> s[j] != '.',
    decreases s.len(),
{
    if s.len() > 0 && s.last() != '.' {
        lemma_last_dot_bounds(s.drop_last());
        assert forall|j: int| last_dot(s) < j < s.len() implies s[j] != '.' by {
            if j < s.len() - 1 {
                assert(s[j] == s.drop_last()[j]);
            }
        }
    }
}

/// Splitting a file name loses nothing and cuts at its last dot: with an
/// extension, the name is the stem, a `.`, and the extension, where the
/// extension holds no `.` and the stem is not empty; without one, the stem
/// is the whole name, and the name has no `.` past its first character (or
/// is `..`).
pub proof fn lemma_split_file_name_meaning(name: Seq<char>)
    ensures
        match extension_of(name) {
            Some(ext) => {
                &&& stem_of(name) + seq!['.'] + ext == name
                &&& stem_of(name).len() > 0
                &&& forall|j: int| 0 <= j < ext.len() ==> ext[j] != '.'
            },
            None => {
                &&& stem_of(name) == name
                &&& (name == seq!['.', '.'] || forall|j: int| 0 < j < name.len() ==> name[j] != '.')
            },
        },
{
    lemma_last_dot_bounds(name);
    let d = last_dot(name);
    if has_extension(name) {
        let ext = name.skip(d + 1);
        assert(name.take(d) + seq!['.'] + ext =~= name);
        assert forall|j: int| 0 <= j < ext.len() implies ext[j] != '.' by {
            assert(ext[j] == name[d + 1 + j]);
        }
    }
}

/// With no `.` at or after `i`, the last dot of `s` is that of its first `i`
/// characters.
proof fn lemma_last_dot_prefix(s: Seq<char>, i: int)
    requires
        0 <= i <= s.len(),
        forall|j: int| i <= j < s.len() ==> s[j] != '.',
    ensures
        last_dot(s) == last_dot(s.take(i)),
    decreases s.len() - i,
{
    if i == s.len() {
        assert(s.take(i) =~= s);
    } else {
        assert(s.drop_last().take(i) =~= s.take(i));
        lemma_last_dot_prefix(s.drop_last(), i);
    }
}

/// Index of the last `.` of `name`, if any.
fn find_last_dot(name: &str) -> (found: Option<usize>)
    ensures
        match found {
            Some(i) => i as int == last_dot(name@),
            None => last_dot(name@) == -1,
        },
{
    let n = name.unicode_len();
    let mut i = n;
    while i > 0
        invariant
            n == name@.len(),
            0 <= i <= n,
            forall|j: int| i <= j < n ==> name@[j] != '.',
        decreases i,
    {
        if name.get_char(i - 1) == '.' {
            proof {
                lemma_last_dot_prefix(name@, i as int);
                assert(name@.take(i as int).last() == '.');
            }
            return Some(i - 1);
        }
        i = i - 1;
    }
    proof {
        lemma_last_dot_prefix(name@, 0);
    }
    None
}

/// Splits a file name into its stem and extension, as `Path::file_stem` and
/// `Path::extension` do for a path whose file name is `name`.
pub fn split_file_name(name: &str) -> (parts: (&str, Option<&str>))
    ensures
        parts.0@ == stem_of(name@),
        match parts.1 {
            Some(ext) => extension_of(name@) == Some(ext@),
            None => extension_of(name@) is None,
        },
        match parts.1 {
            Some(ext) => parts.0@ + seq!['.'] + ext@ == name@ && parts.0@.len() > 0 && forall|j: int|
                0 <= j < ext@.len() ==> ext@[j] != '.',
            None => parts.0@ == name@,
        },
{
    proof {
        lemma_split_file_name_meaning(name@);
    }
    let n = name.unicode_len();
    match find_last_dot(name) {
        Some(d) => {
            proof {
                lemma_last_dot_bounds(name@);
            }
            let is_dot_dot = n == 2 && name.get_char(0) == '.' && name.get_char(1) == '.';
            proof {
                if is_dot_dot {
                    assert(name@ =~= seq!['.', '.']);
                } else if name@ =~= seq!['.', '.'] {
                    assert(name@[0] == '.' && name@[1] == '.');
                }
            }
            if d > 0 && !is_dot_dot {
                let stem = name.substring_char(0, d);
                let ext = name.substring_char(d + 1, n);
                proof {
                    assert(stem@ =~= name@.take(d as int));
                    assert(ext@ =~= name@.skip(d + 1));
                }
                (stem, Some(ext))
            } else {
                (name, None)
            }
        },
        None => (name, None),
    }
}

// ----- code-point order of names -----

/// Lexicographic order of character sequences by code point; this is the
/// order of `String`s, whose UTF-8 bytes compare in the same order.
pub open spec fn chars_lt(a: Seq<char>, b: Seq<char>) -> bool
    decreases a.len(),
{
    if a.len() == 0 {
        b.len() > 0
    } else if b.len() == 0 {
        false
    } else if a[0] != b[0] {
        (a[0] as int) < (b[0] as int)
    } else {
        chars_lt(a.drop_first(), b.drop_first())
    }
}

/// The order compares at the first position where the texts differ: `a`
/// comes before `b` exactly when they agree on some first `k` characters
/// and then either `a` ends while `b` goes on, or `a`'s next character has
/// the smaller code.
pub proof fn lemma_chars_lt_meaning(a: Seq<char>, b: Seq<char>)
    ensures
        chars_lt(a, b) <==> exists|k: int|
            0 <= k <= a.len() && k <= b.len() && #[trigger] a.take(k) == b.take(k) && ({
                ||| k == a.len() && k < b.len()
                ||| k < a.len() && k < b.len() && (a[k] as int) < (b[k] as int)
            }),
    decreases a.len(),
{
    if chars_lt(a, b) {
        let k = lemma_chars_lt_witness(a, b);
    }
    if exists|k: int|
        0 <= k <= a.len() && k <= b.len() && #[trigger] a.take(k) == b.take(k) && ({
            ||| k == a.len() && k < b.len()
            ||| k < a.len() && k < b.len() && (a[k] as int) < (b[k] as int)
        }) {
        let k = choose|k: int|
            0 <= k <= a.len() && k <= b.len() && #[trigger] a.take(k) == b.take(k) && ({
                ||| k == a.len() && k < b.len()
                ||| k < a.len() && k < b.len() && (a[k] as int) < (b[k] as int)
            });
        lemma_chars_lt_from_witness(a, b, k);
    }
}

proof fn lemma_chars_lt_witness(a: Seq<char>, b: Seq<char>) -> (k: int)
    requires
        chars_lt(a, b),
    ensures
        0 <= k <= a.len() && k <= b.len() && a.take(k) == b.take(k) && ({
            ||| k == a.len() && k < b.len()
            ||| k < a.len() && k < b.len() && (a[k] as int) < (b[k] as int)
        }),
    decreases a.len(),
{
    if a.len() == 0 || a[0] != b[0] {
        assert(a.take(0) =~= b.take(0));
        0
    } else {
        let k = lemma_chars_lt_witness(a.drop_first(), b.drop_first());
        assert(a.take(k + 1) =~= seq![a[0]] + a.drop_first().take(k));
        assert(b.take(k + 1) =~= seq![b[0]] + b.drop_first().take(k));
        k + 1
    }
}

proof fn lemma_chars_lt_from_witness(a: Seq<char>, b: Seq<char>, k: int)
    requires
        0 <= k <= a.len() && k <= b.len() && a.take(k) == b.take(k) && ({
            ||| k == a.len() && k < b.len()
            ||| k < a.len() && k < b.len() && (a[k] as int) < (b[k] as int)
        }),
    ensures
        chars_lt(a, b),
    decreases a.len(),
{
    if k > 0 {
        assert(a[0] == a.take(k)[0]);
        assert(b[0] == b.take(k)[0]);
        assert(a.drop_first().take(k - 1) =~= a.take(k).drop_first());
        assert(b.drop_first().take(k - 1) =~= b.take(k).drop_first());
        lemma_chars_lt_from_witness(a.drop_first(), b.drop_first(), k - 1);
    } else if k < a.len() {
        assert((a[0] as int) != (b[0] as int));
    }
}

/// Exactly one of `a < b`, `a == b`, `b < a` holds.
pub proof fn lemma_chars_lt_trichotomy(a: Seq<char>, b: Seq<char>)
    ensures
        chars_lt(a, b) || a == b || chars_lt(b, a),
        !(chars_lt(a, b) && chars_lt(b, a)),
        !chars_lt(a, a),
    decreases a.len(),
{
    if a.len() > 0 {
        lemma_chars_lt_trichotomy(a.drop_first(), a.drop_first());
    }
    if a.len() > 0 && b.len() > 0 {
        if a[0] == b[0] {
            lemma_chars_lt_trichotomy(a.drop_first(), b.drop_first());
            if a.drop_first() == b.drop_first() {
                assert(a =~= seq![a[0]] + a.drop_first());
                assert(b =~= seq![b[0]] + b.drop_first());
                assert(a =~= b);
            }
        } else {
            assert((a[0] as int) != (b[0] as int));
        }
    } else if a.len() == 0 && b.len() == 0 {
        assert(a =~= b);
    }
}

/// The order is transitive.
pub proof fn lemma_chars_lt_transitive(a: Seq<char>, b: Seq<char>, c: Seq<char>)
    requires
        chars_lt(a, b),
        chars_lt(b, c),
    ensures
        chars_lt(a, c),
    decreases a.len(),
{
    if a.len() > 0 && b.len() > 0 && c.len() > 0 {
        if a[0] == b[0] && b[0] == c[0] {
            lemma_chars_lt_transitive(a.drop_first(), b.drop_first(), c.drop_first());
        }
    }
}

/// "Not after" is transitive: from `b <= a` and `c <= b` follows `c <= a`.
pub proof fn lemma_chars_le_transitive(a: Seq<char>, b: Seq<char>, c: Seq<char>)
    requires
        !chars_lt(a, b),
        !chars_lt(b, c),
    ensures
        !chars_lt(a, c),
{
    lemma_chars_lt_trichotomy(a, b);
    lemma_chars_lt_trichotomy(b, c);
    lemma_chars_lt_trichotomy(a, c);
    if chars_lt(a, c) {
        if chars_lt(c, b) {
            lemma_chars_lt_transitive(a, c, b);
        }
    }
}

/// Whether `a` comes strictly before `b` in code-point order.
pub fn chars_precede(a: &str, b: &str) -> (before: bool)
    ensures
        before == chars_lt(a@, b@),
{
    let na = a.unicode_len();
    let nb = b.unicode_len();
    let mut i: usize = 0;
    proof {
        assert(a@.skip(0) =~= a@);
        assert(b@.skip(0) =~= b@);
    }
    while i < na && i < nb
        invariant
            na == a@.len(),
            nb == b@.len(),
            0 <= i <= na,
            i <= nb,
            chars_lt(a@, b@) == chars_lt(a@.skip(i as int), b@.skip(i as int)),
        decreases na - i,
    {
        let ca = a.get_char(i);
        let cb = b.get_char(i);
        if ca != cb {
            return (ca as u32) < (cb as u32);
        }
        proof {
            assert(a@.skip(i as int).drop_first() =~= a@.skip(i + 1));
            assert(b@.skip(i as int).drop_first() =~= b@.skip(i + 1));
        }
        i = i + 1;
    }
    i < nb
}

} // verus!
