use vstd::prelude::*;

verus! {

/// `String::push` appends one character.
pub assume_specification[ String::push ](s: &mut String, ch: char)
    ensures
        final(s)@ == old(s)@.push(ch),
;

/// `String::push_str` appends the characters of a string slice.
pub assume_specification[ String::push_str ](s: &mut String, tail: &str)
    ensures
        final(s)@ == old(s)@ + tail@,
;

/// The characters that carry the Unicode `White_Space` property, which is
/// what `char::is_whitespace` (and hence `str::trim`) removes.
pub open spec fn is_space(c: char) -> bool {
    ||| '\u{9}' <= c <= '\u{D}'
    ||| c == ' '
    ||| c == '\u{85}'
    ||| c == '\u{A0}'
    ||| c == '\u{1680}'
    ||| '\u{2000}' <= c <= '\u{200A}'
    ||| c == '\u{2028}'
    ||| c == '\u{2029}'
    ||| c == '\u{202F}'
    ||| c == '\u{205F}'
    ||| c == '\u{3000}'
}

/// Drops leading white space.
pub open spec fn trim_start(s: Seq<char>) -> Seq<char>
    decreases s.len(),
{
    if s.len() > 0 && is_space(s[0]) {
        trim_start(s.drop_first())
    } else {
        s
    }
}

/// Drops trailing white space.
pub open spec fn trim_end(s: Seq<char>) -> Seq<char>
    decreases s.len(),
{
    if s.len() > 0 && is_space(s.last()) {
        trim_end(s.drop_last())
    } else {
        s
    }
}

/// Drops white space at both ends, as `str::trim` does.
pub open spec fn trim(s: Seq<char>) -> Seq<char> {
    trim_end(trim_start(s))
}

/// Position of the first `@` in `s`, or `s.len()` when there is none.
pub open spec fn marker_index(s: Seq<char>) -> nat
    decreases s.len(),
{
    if s.len() == 0 || s[0] == '@' {
        0
    } else {
        1 + marker_index(s.drop_first())
    }
}

/// The asset references of a USD text: every stretch between an opening `@`
/// and the next `@` (or the end of the text, when none follows), with white
/// space trimmed at both ends, in order of appearance; stretches that are empty
/// after trimming are left out. The closing `@` is consumed, so it never opens
/// a further reference.
pub open spec fn references(s: Seq<char>) -> Seq<Seq<char>>
    decreases s.len(),
{
    if s.len() == 0 {
        seq![]
    } else if s[0] != '@' {
        references(s.drop_first())
    } else {
        let body = s.drop_first();
        let k = marker_index(body);
        let token = trim(body.take(k as int));
        let rest = if k < body.len() {
            body.skip((k + 1) as int)
        } else {
            Seq::<char>::empty()
        };
        (if token.len() > 0 {
            seq![token]
        } else {
            Seq::<Seq<char>>::empty()
        }) + references(rest)
    }
}

/// The views of a vector of strings.
pub open spec fn strings_view(v: Seq<String>) -> Seq<Seq<char>> {
    v.map_values(|s: String| s@)
}

/// Whether `c` is white space in the sense of `char::is_whitespace`.
pub fn is_space_char(c: char) -> (r: bool)
    ensures
        r == is_space(c),
{
    ('\u{9}' <= c && c <= '\u{D}') || c == ' ' || c == '\u{85}' || c == '\u{A0}' || c
        == '\u{1680}' || ('\u{2000}' <= c && c <= '\u{200A}') || c == '\u{2028}' || c
        == '\u{2029}' || c == '\u{202F}' || c == '\u{205F}' || c == '\u{3000}'
}

/// Copies the characters of `s`, in order, into a vector.
pub fn chars_of(s: &str) -> (v: Vec<char>)
    ensures
        v@ == s@,
{
    let mut v: Vec<char> = Vec::new();
    for c in it: s.chars()
        invariant
            v@ == it.seq().take(it.index()),
    {
        v.push(c);
    }
    v
}

/// Builds a string from the characters `v[lo..hi]`.
pub fn string_of_range(v: &Vec<char>, lo: usize, hi: usize) -> (s: String)
    requires
        lo <= hi <= v.len(),
    ensures
        s@ == v@.subrange(lo as int, hi as int),
{
    let mut s = String::new();
    let mut i = lo;
    while i < hi
        invariant
            lo <= i <= hi <= v.len(),
            s@ == v@.subrange(lo as int, i as int),
        decreases hi - i,
    {
        s.push(v[i]);
        i = i + 1;
        assert(s@ =~= v@.subrange(lo as int, i as int));
    }
    s
}

proof fn lemma_trim_start_step(v: Seq<char>, lo: int, hi: int)
    requires
        0 <= lo < hi <= v.len(),
        is_space(v[lo]),
    ensures
        trim_start(v.subrange(lo, hi)) == trim_start(v.subrange(lo + 1, hi)),
{
    assert(v.subrange(lo, hi).drop_first() =~= v.subrange(lo + 1, hi));
}

proof fn lemma_trim_end_step(v: Seq<char>, lo: int, hi: int)
    requires
        0 <= lo < hi <= v.len(),
        is_space(v[hi - 1]),
    ensures
        trim_end(v.subrange(lo, hi)) == trim_end(v.subrange(lo, hi - 1)),
{
    assert(v.subrange(lo, hi).drop_last() =~= v.subrange(lo, hi - 1));
}

/// Trims `v[lo..hi]` as `str::trim` does.
pub fn trimmed_range(v: &Vec<char>, lo: usize, hi: usize) -> (s: String)
    requires
        lo <= hi <= v.len(),
    ensures
        s@ == trim(v@.subrange(lo as int, hi as int)),
{
    let mut a = lo;
    while a < hi && is_space_char(v[a])
        invariant
            lo <= a <= hi <= v.len(),
            trim_start(v@.subrange(lo as int, hi as int)) == trim_start(
                v@.subrange(a as int, hi as int),
            ),
        decreases hi - a,
    {
        proof {
            lemma_trim_start_step(v@, a as int, hi as int);
        }
        a = a + 1;
    }
    let mut b = hi;
    while b > a && is_space_char(v[b - 1])
        invariant
            lo <= a <= b <= hi <= v.len(),
            trim_end(v@.subrange(a as int, hi as int)) == trim_end(
                v@.subrange(a as int, b as int),
            ),
        decreases b - a,
    {
        proof {
            lemma_trim_end_step(v@, a as int, b as int);
        }
        b = b - 1;
    }
    proof {
        let t = v@.subrange(a as int, b as int);
        if a < hi {
            assert(!is_space(v@[a as int]));
        }
        if b > a {
            assert(!is_space(t.last()));
        }
        assert(trim_start(v@.subrange(a as int, hi as int)) == v@.subrange(a as int, hi as int));
        assert(trim_end(t) == t);
    }
    string_of_range(v, a, b)
}

/// Where `lo..j` holds no `@` and `j` is the end or an `@`, the first marker of
/// `v[lo..]` is at offset `j - lo`.
proof fn lemma_marker_index(v: Seq<char>, lo: int, j: int)
    requires
        0 <= lo <= j <= v.len(),
        forall|t: int| lo <= t < j ==> v[t] != '@',
        j < v.len() ==> v[j] == '@',
    ensures
        marker_index(v.skip(lo)) == j - lo,
    decreases j - lo,
{
    if lo < j {
        assert(v.skip(lo).drop_first() =~= v.skip(lo + 1));
        lemma_marker_index(v, lo + 1, j);
    }
}

/// Extracts the asset references (`@...@`) of a USD text.
pub fn extract_refs(content: &str) -> (refs: Vec<String>)
    ensures
        strings_view(refs@) == references(content@),
{
    let chars = chars_of(content);
    let n = chars.len();
    let mut refs: Vec<String> = Vec::new();
    let mut i: usize = 0;
    proof {
        assert(chars@.skip(0) =~= chars@);
        assert(strings_view(refs@) =~= Seq::<Seq<char>>::empty());
        assert(strings_view(refs@) + references(chars@) =~= references(chars@));
    }
    while i < n
        invariant
            n == chars.len(),
            chars@ == content@,
            i <= n,
            strings_view(refs@) + references(chars@.skip(i as int)) == references(chars@),
        decreases n - i,
    {
        let ghost before = strings_view(refs@);
        if chars[i] == '@' {
            let mut j = i + 1;
            while j < n && chars[j] != '@'
                invariant
                    i < n == chars.len(),
                    i + 1 <= j <= n,
                    forall|t: int| i + 1 <= t < j ==> chars@[t] != '@',
                decreases n - j,
            {
                j = j + 1;
            }
            let token = trimmed_range(&chars, i + 1, j);
            let next = if j < n {
                j + 1
            } else {
                n
            };
            proof {
                let s = chars@.skip(i as int);
                let body = s.drop_first();
                assert(body =~= chars@.skip(i + 1));
                lemma_marker_index(chars@, i + 1, j as int);
                assert(body.take(j - i - 1) =~= chars@.subrange(i + 1, j as int));
                if j < n {
                    assert(body.skip(j - i) =~= chars@.skip(next as int));
                } else {
                    assert(chars@.skip(next as int) =~= Seq::<char>::empty());
                }
            }
            if !token.as_str().is_empty() {
                refs.push(token);
                proof {
                    assert(strings_view(refs@) =~= before.push(token@));
                }
            }
            proof {
                let s = chars@.skip(i as int);
                let tail = references(chars@.skip(next as int));
                if token@.len() > 0 {
                    assert(references(s) =~= seq![token@] + tail);
                    assert(strings_view(refs@) + tail =~= before + (seq![token@] + tail));
                } else {
                    assert(references(s) =~= tail);
                }
            }
            i = next;
        } else {
            proof {
                assert(chars@.skip(i as int).drop_first() =~= chars@.skip(i + 1));
            }
            i = i + 1;
        }
    }
    proof {
        assert(chars@.skip(n as int) =~= Seq::<char>::empty());
        assert(strings_view(refs@) =~= strings_view(refs@) + references(Seq::<char>::empty()));
    }
    refs
}

/// The code of `c` with ASCII upper-case letters mapped to lower case, as
/// `char::to_ascii_lowercase` does.
pub open spec fn ascii_fold(c: char) -> u32 {
    if 'A' <= c <= 'Z' {
        (c as u32 + 32) as u32
    } else {
        c as u32
    }
}

/// Two texts are equal up to ASCII case, as `str::eq_ignore_ascii_case` decides.
pub open spec fn eq_ignore_ascii_case(a: Seq<char>, b: Seq<char>) -> bool {
    &&& a.len() == b.len()
    &&& forall|i: int| 0 <= i < a.len() ==> ascii_fold(#[trigger] a[i]) == ascii_fold(b[i])
}

/// The code of `c` folded to ASCII lower case.
pub fn fold_char(c: char) -> (r: u32)
    ensures
        r == ascii_fold(c),
{
    let x = c as u32;
    if 'A' <= c && c <= 'Z' {
        x + 32
    } else {
        x
    }
}

/// Whether `a` and `b` are equal up to ASCII case.
pub fn same_ignoring_ascii_case(a: &str, b: &str) -> (r: bool)
    ensures
        r == eq_ignore_ascii_case(a@, b@),
        r <==> lower_ascii(a@) == lower_ascii(b@),
        r ==> a@.len() == b@.len(),
{
    proof {
        lemma_eq_ignore_ascii_case_is_lowercase_eq(a@, b@);
    }
    let x = chars_of(a);
    let y = chars_of(b);
    if x.len() != y.len() {
        return false;
    }
    let mut i: usize = 0;
    while i < x.len()
        invariant
            x@ == a@,
            y@ == b@,
            x.len() == y.len(),
            i <= x.len(),
            eq_ignore_ascii_case(a@, b@) <==> lower_ascii(a@) == lower_ascii(b@),
            forall|j: int| 0 <= j < i ==> ascii_fold(#[trigger] x@[j]) == ascii_fold(y@[j]),
        decreases x.len() - i,
    {
        if fold_char(x[i]) != fold_char(y[i]) {
            return false;
        }
        i = i + 1;
    }
    true
}

/// Whether `a` and `b` hold the same characters.
pub fn same_text(a: &str, b: &str) -> (r: bool)
    ensures
        r == (a@ == b@),
{
    let x = chars_of(a);
    let y = chars_of(b);
    if x.len() != y.len() {
        return false;
    }
    let mut i: usize = 0;
    while i < x.len()
        invariant
            x@ == a@,
            y@ == b@,
            x.len() == y.len(),
            i <= x.len(),
            forall|j: int| 0 <= j < i ==> #[trigger] x@[j] == y@[j],
        decreases x.len() - i,
    {
        if x[i] != y[i] {
            return false;
        }
        i = i + 1;
    }
    assert(x@ =~= y@);
    true
}

/// Whether `s` contains the character `c`.
pub fn contains_char(s: &str, c: char) -> (r: bool)
    ensures
        r == s@.contains(c),
{
    let x = chars_of(s);
    let mut i: usize = 0;
    while i < x.len()
        invariant
            x@ == s@,
            i <= x.len(),
            forall|j: int| 0 <= j < i ==> x@[j] != c,
        decreases x.len() - i,
    {
        if x[i] == c {
            return true;
        }
        i = i + 1;
    }
    false
}

proof fn lemma_trim_start_suffix(s: Seq<char>)
    ensures
        exists|j: int| 0 <= j <= s.len() && trim_start(s) == s.skip(j),
        trim_start(s).len() > 0 ==> !is_space(trim_start(s)[0]),
    decreases s.len(),
{
    if s.len() > 0 && is_space(s[0]) {
        lemma_trim_start_suffix(s.drop_first());
        let j = choose|j: int| 0 <= j <= s.drop_first().len() && trim_start(s.drop_first()) == s.drop_first().skip(j);
        assert(s.drop_first().skip(j) =~= s.skip(j + 1));
    } else {
        assert(s.skip(0) =~= s);
    }
}

proof fn lemma_trim_end_prefix(s: Seq<char>)
    ensures
        exists|j: int| 0 <= j <= s.len() && trim_end(s) == s.take(j),
        trim_end(s).len() > 0 ==> !is_space(trim_end(s).last()),
    decreases s.len(),
{
    if s.len() > 0 && is_space(s.last()) {
        lemma_trim_end_prefix(s.drop_last());
        let j = choose|j: int| 0 <= j <= s.drop_last().len() && trim_end(s.drop_last()) == s.drop_last().take(j);
        assert(s.drop_last().take(j) =~= s.take(j));
    } else {
        assert(s.take(s.len() as int) =~= s);
    }
}

/// `trim` keeps a stretch of its argument that neither starts nor ends with
/// white space.
proof fn lemma_trim_shape(s: Seq<char>)
    ensures
        forall|i: int| 0 <= i < trim(s).len() ==> s.contains(#[trigger] trim(s)[i]),
        trim(s).len() > 0 ==> !is_space(trim(s)[0]) && !is_space(trim(s).last()),
{
    lemma_trim_start_suffix(s);
    let t = trim_start(s);
    lemma_trim_end_prefix(t);
    let a = choose|j: int| 0 <= j <= s.len() && t == s.skip(j);
    let b = choose|j: int| 0 <= j <= t.len() && trim_end(t) == t.take(j);
    assert forall|i: int| 0 <= i < trim(s).len() implies s.contains(#[trigger] trim(s)[i]) by {
        assert(trim(s)[i] == s[a + i]);
    }
    if trim(s).len() > 0 {
        assert(trim(s)[0] == t[0]);
    }
}

proof fn lemma_marker_free(s: Seq<char>)
    ensures
        marker_index(s) <= s.len(),
        forall|i: int| 0 <= i < marker_index(s) ==> s[i] != '@',
        marker_index(s) < s.len() ==> s[marker_index(s) as int] == '@',
    decreases s.len(),
{
    if s.len() > 0 && s[0] != '@' {
        lemma_marker_free(s.drop_first());
        assert forall|i: int| 0 <= i < marker_index(s) implies s[i] != '@' by {
            if i > 0 {
                assert(s[i] == s.drop_first()[i - 1]);
            }
        }
    }
}

/// Every extracted reference is non-empty, holds no `@`, and neither starts
/// nor ends with white space.
pub proof fn lemma_references_shape(s: Seq<char>)
    ensures
        forall|k: int| 0 <= k < references(s).len() ==> {
            let r = #[trigger] references(s)[k];
            &&& r.len() > 0
            &&& !r.contains('@')
            &&& !is_space(r[0])
            &&& !is_space(r.last())
        },
    decreases s.len(),
{
    if s.len() > 0 {
        if s[0] != '@' {
            lemma_references_shape(s.drop_first());
            assert(references(s) == references(s.drop_first()));
        } else {
            let body = s.drop_first();
            let k = marker_index(body);
            lemma_marker_free(body);
            let inner = body.take(k as int);
            let token = trim(inner);
            lemma_trim_shape(inner);
            let rest = if k < body.len() {
                body.skip((k + 1) as int)
            } else {
                Seq::<char>::empty()
            };
            lemma_references_shape(rest);
            let head = if token.len() > 0 {
                seq![token]
            } else {
                Seq::<Seq<char>>::empty()
            };
            assert(references(s) == head + references(rest));
            if token.len() > 0 {
                assert(!token.contains('@')) by {
                    if token.contains('@') {
                        let i = choose|i: int| 0 <= i < token.len() && token[i] == '@';
                        assert(inner.contains(token[i]));
                        let j = choose|j: int| 0 <= j < inner.len() && inner[j] == token[i];
                        assert(inner[j] == body[j]);
                    }
                }
            }
            assert forall|m: int| 0 <= m < references(s).len() implies {
                let r = #[trigger] references(s)[m];
                &&& r.len() > 0
                &&& !r.contains('@')
                &&& !is_space(r[0])
                &&& !is_space(r.last())
            } by {
                if m < head.len() {
                    assert(references(s)[m] == token);
                } else {
                    assert(references(s)[m] == references(rest)[m - head.len()]);
                }
            }
        }
    }
}

// ---------------------------------------------------------------------------
// Laws
// ---------------------------------------------------------------------------

/// A character with ASCII upper-case letters mapped to lower case, as
/// `char::to_ascii_lowercase` does.
pub open spec fn to_ascii_lower(c: char) -> char {
    if 'A' <= c <= 'Z' {
        ((c as u32) + 32) as char
    } else {
        c
    }
}

/// A text with ASCII upper-case letters mapped to lower case, as
/// `str::to_ascii_lowercase` does.
pub open spec fn lower_ascii(s: Seq<char>) -> Seq<char> {
    s.map_values(|c: char| to_ascii_lower(c))
}

/// Two texts are equal up to ASCII case exactly when lower-casing their ASCII
/// letters makes them equal; in particular they have the same length.
pub proof fn lemma_eq_ignore_ascii_case_is_lowercase_eq(a: Seq<char>, b: Seq<char>)
    ensures
        eq_ignore_ascii_case(a, b) <==> lower_ascii(a) == lower_ascii(b),
        eq_ignore_ascii_case(a, b) ==> a.len() == b.len(),
{
    assert forall|c: char| #[trigger] ascii_fold(c) == to_ascii_lower(c) as u32 by {
        if 'A' <= c <= 'Z' {
            assert(((c as u32) + 32) as char as u32 == (c as u32) + 32);
        }
    }
    if eq_ignore_ascii_case(a, b) {
        assert forall|i: int| 0 <= i < a.len() implies lower_ascii(a)[i] == lower_ascii(b)[i] by {
            assert(ascii_fold(a[i]) == ascii_fold(b[i]));
            assert(to_ascii_lower(a[i]) as u32 == to_ascii_lower(b[i]) as u32);
        }
        assert(lower_ascii(a) =~= lower_ascii(b));
    }
    if lower_ascii(a) == lower_ascii(b) {
        assert(a.len() == lower_ascii(a).len());
        assert forall|i: int| 0 <= i < a.len() implies ascii_fold(#[trigger] a[i]) == ascii_fold(b[i]) by {
            assert(lower_ascii(a)[i] == lower_ascii(b)[i]);
        }
    }
}

/// Number of `@` markers in a text.
pub open spec fn markers(s: Seq<char>) -> nat
    decreases s.len(),
{
    if s.len() == 0 {
        0
    } else {
        (if s[0] == '@' {
            1nat
        } else {
            0nat
        }) + markers(s.drop_first())
    }
}

proof fn lemma_markers_concat(a: Seq<char>, b: Seq<char>)
    ensures
        markers(a + b) == markers(a) + markers(b),
    decreases a.len(),
{
    if a.len() == 0 {
        assert(a + b =~= b);
    } else {
        assert((a + b).drop_first() =~= a.drop_first() + b);
        lemma_markers_concat(a.drop_first(), b);
    }
}

proof fn lemma_no_marker_count(s: Seq<char>)
    requires
        !s.contains('@'),
    ensures
        markers(s) == 0,
    decreases s.len(),
{
    if s.len() > 0 {
        assert(s[0] != '@');
        assert forall|i: int| 0 <= i < s.drop_first().len() implies s.drop_first()[i] != '@' by {
            assert(s.drop_first()[i] == s[i + 1]);
        }
        lemma_no_marker_count(s.drop_first());
    }
}

proof fn lemma_marker_index_prefix(x: Seq<char>, y: Seq<char>)
    requires
        marker_index(x) < x.len(),
    ensures
        marker_index(x + y) == marker_index(x),
    decreases x.len(),
{
    if x[0] != '@' {
        assert((x + y).drop_first() =~= x.drop_first() + y);
        lemma_marker_index_prefix(x.drop_first(), y);
    }
}

proof fn lemma_marker_found(x: Seq<char>)
    requires
        markers(x) > 0,
    ensures
        marker_index(x) < x.len(),
    decreases x.len(),
{
    if x[0] != '@' {
        lemma_marker_found(x.drop_first());
    }
}

/// Reference extraction splits at any point outside a reference: where `a`
/// holds an even number of `@` markers, the references of `a + b` are those
/// of `a` followed by those of `b`. So none is lost or added by what follows.
pub proof fn lemma_references_concat(a: Seq<char>, b: Seq<char>)
    requires
        markers(a) % 2 == 0,
    ensures
        references(a + b) == references(a) + references(b),
    decreases a.len(),
{
    if a.len() == 0 {
        assert(a + b =~= b);
        assert(references(a) + references(b) =~= references(b));
    } else if a[0] != '@' {
        assert((a + b).drop_first() =~= a.drop_first() + b);
        lemma_references_concat(a.drop_first(), b);
    } else {
        let body = a.drop_first();
        lemma_marker_free(body);
        assert(markers(body) + 1 == markers(a));
        lemma_marker_found(body);
        let k = marker_index(body);
        let bb = (a + b).drop_first();
        assert(bb =~= body + b);
        lemma_marker_index_prefix(body, b);
        assert(bb.take(k as int) =~= body.take(k as int));
        let rest = body.skip((k + 1) as int);
        assert(bb.skip((k + 1) as int) =~= rest + b);
        assert(body =~= body.take(k as int) + seq![body[k as int]] + rest);
        lemma_markers_concat(body.take(k as int) + seq![body[k as int]], rest);
        lemma_markers_concat(body.take(k as int), seq![body[k as int]]);
        assert(!body.take(k as int).contains('@')) by {
            if body.take(k as int).contains('@') {
                let t = choose|t: int| 0 <= t < k && body.take(k as int)[t] == '@';
                assert(body[t] == '@');
            }
        }
        lemma_no_marker_count(body.take(k as int));
        assert(markers(seq![body[k as int]]) == 1) by {
            let one = seq![body[k as int]];
            assert(one[0] == '@');
            assert(one.drop_first() =~= Seq::<char>::empty());
            assert(markers(one.drop_first()) == 0);
        }
        lemma_references_concat(rest, b);
        let token = trim(body.take(k as int));
        let head = if token.len() > 0 {
            seq![token]
        } else {
            Seq::<Seq<char>>::empty()
        };
        assert(references(a) == head + references(rest));
        assert(references(a + b) == head + references(rest + b));
        assert(head + (references(rest) + references(b)) =~= (head + references(rest)) + references(b));
    }
}

/// A text without `@` markers has no references.
pub proof fn lemma_references_plain(x: Seq<char>)
    requires
        !x.contains('@'),
    ensures
        references(x) == Seq::<Seq<char>>::empty(),
    decreases x.len(),
{
    if x.len() > 0 {
        assert(x[0] != '@');
        assert forall|i: int| 0 <= i < x.drop_first().len() implies x.drop_first()[i] != '@' by {
            assert(x.drop_first()[i] == x[i + 1]);
        }
        lemma_references_plain(x.drop_first());
    }
}

/// One `@`-delimited stretch is one reference: its text with white space
/// trimmed at both ends, or nothing when that is empty.
pub proof fn lemma_references_single(x: Seq<char>)
    requires
        !x.contains('@'),
    ensures
        references(seq!['@'] + x + seq!['@']) == if trim(x).len() > 0 {
            seq![trim(x)]
        } else {
            Seq::<Seq<char>>::empty()
        },
{
    let s = seq!['@'] + x + seq!['@'];
    let body = s.drop_first();
    assert(body =~= x + seq!['@']);
    assert forall|t: int| 0 <= t < x.len() implies body[t] != '@' by {
        assert(body[t] == x[t]);
    }
    lemma_marker_index(body, 0, x.len() as int);
    assert(body.skip(0) =~= body);
    assert(body.take(x.len() as int) =~= x);
    assert(body.skip(x.len() as int + 1) =~= Seq::<char>::empty());
    assert(references(Seq::<char>::empty()) == Seq::<Seq<char>>::empty());
}

} // verus!
