//! Verified text primitives shared by the classifier, the catalog and the
//! command synthesizer: whitespace trimming, token extraction, substring
//! search, lexicographic ordering and the space-to-plus query encoding.

use vstd::prelude::*;

verus! {

/// The characters the engine treats as whitespace: the ASCII blanks that
/// occur in command templates and in typed input.
pub open spec fn spec_is_space(c: char) -> bool {
    c == ' ' || c == '\t' || c == '\n' || c == '\r'
}

/// Runtime check matching `spec_is_space`.
pub fn is_space(c: char) -> (r: bool)
    ensures
        r == spec_is_space(c),
{
    c == ' ' || c == '\t' || c == '\n' || c == '\r'
}

/// Every character of `s` is whitespace.
pub open spec fn all_space(s: Seq<char>) -> bool {
    forall|i: int| 0 <= i < s.len() ==> spec_is_space(#[trigger] s[i])
}

/// `s` contains at least one whitespace character.
pub open spec fn has_space(s: Seq<char>) -> bool {
    exists|i: int| 0 <= i < s.len() && spec_is_space(#[trigger] s[i])
}

/// `s` contains the character `c`.
pub open spec fn contains_char(s: Seq<char>, c: char) -> bool {
    exists|i: int| 0 <= i < s.len() && #[trigger] s[i] == c
}

/// Whether `s` holds any whitespace character.
pub fn has_space_str(s: &str) -> (r: bool)
    ensures
        r == has_space(s@),
{
    proof {
        lemma_idx_space(s@, 0);
    }
    let n: usize = s.unicode_len();
    let k: usize = scan_space(s, 0);
    k < n
}

/// Whether `s` holds the character `c`.
pub fn contains_char_str(s: &str, c: char) -> (r: bool)
    ensures
        r == contains_char(s@, c),
{
    let n: usize = s.unicode_len();
    let mut i: usize = 0;
    while i < n
        invariant
            i <= n,
            n == s@.len(),
            forall|j: int| 0 <= j < i ==> #[trigger] s@[j] != c,
        decreases n - i,
    {
        if s.get_char(i) == c {
            return true;
        }
        i = i + 1;
    }
    false
}

/// `s` without its leading whitespace.
pub open spec fn trim_front(s: Seq<char>) -> Seq<char>
    decreases s.len(),
{
    if s.len() > 0 && spec_is_space(s[0]) {
        trim_front(s.drop_first())
    } else {
        s
    }
}

/// `s` without its trailing whitespace.
pub open spec fn trim_back(s: Seq<char>) -> Seq<char>
    decreases s.len(),
{
    if s.len() > 0 && spec_is_space(s.last()) {
        trim_back(s.drop_last())
    } else {
        s
    }
}

/// `s` without leading and trailing whitespace.
pub open spec fn trim_spec(s: Seq<char>) -> Seq<char> {
    trim_back(trim_front(s))
}

proof fn lemma_trim_front_skip(s: Seq<char>, k: int)
    requires
        0 <= k <= s.len(),
        forall|j: int| 0 <= j < k ==> spec_is_space(#[trigger] s[j]),
        k == s.len() || !spec_is_space(s[k]),
    ensures
        trim_front(s) == s.skip(k),
    decreases k,
{
    if k == 0 {
        assert(s.skip(0) =~= s);
    } else {
        let t = s.drop_first();
        assert(forall|j: int| 0 <= j < k - 1 ==> spec_is_space(#[trigger] t[j]));
        lemma_trim_front_skip(t, k - 1);
        assert(t.skip(k - 1) =~= s.skip(k));
    }
}

proof fn lemma_trim_back_take(s: Seq<char>, k: int)
    requires
        0 <= k <= s.len(),
        forall|j: int| k <= j < s.len() ==> spec_is_space(#[trigger] s[j]),
        k == 0 || !spec_is_space(s[k - 1]),
    ensures
        trim_back(s) == s.take(k),
    decreases s.len(),
{
    if k == s.len() {
        assert(s.take(k) =~= s);
    } else {
        let t = s.drop_last();
        assert(spec_is_space(s.last()));
        lemma_trim_back_take(t, k);
        assert(t.take(k) =~= s.take(k));
    }
}

/// Trimming a sequence that is all whitespace leaves nothing.
proof fn lemma_trim_front_all_space(s: Seq<char>)
    requires
        all_space(s),
    ensures
        trim_front(s) == Seq::<char>::empty(),
    decreases s.len(),
{
    if s.len() > 0 {
        let t = s.drop_first();
        assert(forall|j: int| 0 <= j < t.len() ==> spec_is_space(#[trigger] t[j]));
        lemma_trim_front_all_space(t);
    } else {
        assert(s =~= Seq::<char>::empty());
    }
}

/// `s` with its surrounding whitespace removed; the borrowed slice view
/// equals `trim_spec` of the input's view.
pub fn trim_str<'a>(s: &'a str) -> (r: &'a str)
    ensures
        r@ == trim_spec(s@),
{
    let n: usize = s.unicode_len();
    let mut start: usize = 0;
    while start < n && is_space(s.get_char(start))
        invariant
            n == s@.len(),
            start <= n,
            forall|j: int| 0 <= j < start ==> spec_is_space(#[trigger] s@[j]),
        decreases n - start,
    {
        start = start + 1;
    }
    if start == n {
        proof {
            lemma_trim_front_all_space(s@);
            assert(trim_spec(s@) =~= s@.subrange(0, 0));
        }
        s.substring_char(0, 0)
    } else {
        let mut quit: usize = n;
        while quit > start && is_space(s.get_char(quit - 1))
            invariant
                n == s@.len(),
                start <= quit <= n,
                start < n,
                !spec_is_space(s@[start as int]),
                forall|j: int| quit <= j < n ==> spec_is_space(#[trigger] s@[j]),
            decreases quit,
        {
            quit = quit - 1;
        }
        proof {
            if quit == start {
                assert(spec_is_space(s@[start as int]));
            }
            lemma_trim_front_skip(s@, start as int);
            let u = s@.skip(start as int);
            lemma_trim_back_take(u, quit - start);
            assert(u.take(quit - start) =~= s@.subrange(start as int, quit as int));
        }
        s.substring_char(start, quit)
    }
}

/// Whitespace padding on either side does not change the trimmed text.
pub proof fn lemma_trim_ignores_padding(p: Seq<char>, t: Seq<char>, q: Seq<char>)
    requires
        all_space(p),
        all_space(q),
    ensures
        trim_spec(p + t + q) == trim_spec(t),
{
    assert(p + t + q =~= p + (t + q));
    lemma_trim_front_prepend(p, t + q);
    if all_space(t) {
        assert(all_space(t + q)) by {
            assert(forall|i: int|
                0 <= i < (t + q).len() ==> spec_is_space(#[trigger] (t + q)[i]));
        }
        lemma_trim_front_all_space(t + q);
        lemma_trim_front_all_space(t);
    } else {
        lemma_trim_front_concat(t, q);
        lemma_trim_back_append(trim_front(t), q);
    }
}

proof fn lemma_trim_front_prepend(p: Seq<char>, s: Seq<char>)
    requires
        all_space(p),
    ensures
        trim_front(p + s) == trim_front(s),
    decreases p.len(),
{
    if p.len() == 0 {
        assert(p + s =~= s);
    } else {
        assert(spec_is_space((p + s)[0]));
        assert((p + s).drop_first() =~= p.drop_first() + s);
        assert(forall|j: int|
            0 <= j < p.drop_first().len() ==> spec_is_space(#[trigger] p.drop_first()[j]));
        lemma_trim_front_prepend(p.drop_first(), s);
    }
}

/// When `t` holds a non-blank character, trimming the front of `t + q`
/// leaves the whole of `q` in place.
proof fn lemma_trim_front_concat(t: Seq<char>, q: Seq<char>)
    requires
        !all_space(t),
    ensures
        trim_front(t + q) == trim_front(t) + q,
    decreases t.len(),
{
    assert(t.len() > 0);
    if spec_is_space(t[0]) {
        assert((t + q)[0] == t[0]);
        assert((t + q).drop_first() =~= t.drop_first() + q);
        assert(!all_space(t.drop_first())) by {
            let w = choose|i: int| 0 <= i < t.len() && !spec_is_space(#[trigger] t[i]);
            assert(t.drop_first()[w - 1] == t[w]);
        }
        lemma_trim_front_concat(t.drop_first(), q);
    } else {
        assert((t + q)[0] == t[0]);
        assert(trim_front(t + q) == t + q);
    }
}

proof fn lemma_trim_back_append(s: Seq<char>, q: Seq<char>)
    requires
        all_space(q),
    ensures
        trim_back(s + q) == trim_back(s),
    decreases q.len(),
{
    if q.len() == 0 {
        assert(s + q =~= s);
    } else {
        assert(spec_is_space((s + q).last()));
        assert((s + q).drop_last() =~= s + q.drop_last());
        assert(forall|j: int|
            0 <= j < q.drop_last().len() ==> spec_is_space(#[trigger] q.drop_last()[j]));
        lemma_trim_back_append(s, q.drop_last());
    }
}

/// Index of the first non-whitespace character of `s` at or after `from`,
/// or the length of `s` when the rest is all whitespace.
pub open spec fn idx_nonspace(s: Seq<char>, from: int) -> int
    decreases s.len() - from,
{
    if 0 <= from < s.len() {
        if spec_is_space(s[from]) {
            idx_nonspace(s, from + 1)
        } else {
            from
        }
    } else {
        s.len() as int
    }
}

/// Index of the first whitespace character of `s` at or after `from`,
/// or the length of `s` when the rest holds none.
pub open spec fn idx_space(s: Seq<char>, from: int) -> int
    decreases s.len() - from,
{
    if 0 <= from < s.len() {
        if spec_is_space(s[from]) {
            from
        } else {
            idx_space(s, from + 1)
        }
    } else {
        s.len() as int
    }
}

pub proof fn lemma_idx_nonspace(s: Seq<char>, from: int)
    requires
        0 <= from <= s.len(),
    ensures
        from <= idx_nonspace(s, from) <= s.len(),
        forall|j: int| from <= j < idx_nonspace(s, from) ==> spec_is_space(#[trigger] s[j]),
        idx_nonspace(s, from) < s.len() ==> !spec_is_space(s[idx_nonspace(s, from)]),
    decreases s.len() - from,
{
    if from < s.len() && spec_is_space(s[from]) {
        lemma_idx_nonspace(s, from + 1);
    }
}

pub proof fn lemma_idx_space(s: Seq<char>, from: int)
    requires
        0 <= from <= s.len(),
    ensures
        from <= idx_space(s, from) <= s.len(),
        forall|j: int| from <= j < idx_space(s, from) ==> !spec_is_space(#[trigger] s[j]),
        idx_space(s, from) < s.len() ==> spec_is_space(s[idx_space(s, from)]),
    decreases s.len() - from,
{
    if from < s.len() && !spec_is_space(s[from]) {
        lemma_idx_space(s, from + 1);
    }
}

/// The first whitespace-delimited token of `s` (empty when `s` is blank).
pub open spec fn first_token(s: Seq<char>) -> Seq<char> {
    s.subrange(idx_nonspace(s, 0), idx_space(s, idx_nonspace(s, 0)))
}

/// What follows the first token of `s` and the whitespace run after it.
pub open spec fn token_rest(s: Seq<char>) -> Seq<char> {
    s.skip(idx_nonspace(s, idx_space(s, idx_nonspace(s, 0))))
}

/// Index of the first non-whitespace character at or after `from`.
pub fn scan_nonspace(s: &str, from: usize) -> (r: usize)
    requires
        from <= s@.len(),
    ensures
        r == idx_nonspace(s@, from as int),
{
    let n: usize = s.unicode_len();
    let mut i: usize = from;
    while i < n && is_space(s.get_char(i))
        invariant
            from <= i <= n,
            n == s@.len(),
            idx_nonspace(s@, from as int) == idx_nonspace(s@, i as int),
        decreases n - i,
    {
        i = i + 1;
    }
    i
}

/// Index of the first whitespace character at or after `from`.
pub fn scan_space(s: &str, from: usize) -> (r: usize)
    requires
        from <= s@.len(),
    ensures
        r == idx_space(s@, from as int),
{
    let n: usize = s.unicode_len();
    let mut i: usize = from;
    while i < n && !is_space(s.get_char(i))
        invariant
            from <= i <= n,
            n == s@.len(),
            idx_space(s@, from as int) == idx_space(s@, i as int),
        decreases n - i,
    {
        i = i + 1;
    }
    i
}

/// The first whitespace-delimited token of `s`.
pub fn first_token_str<'a>(s: &'a str) -> (r: &'a str)
    ensures
        r@ == first_token(s@),
{
    let a: usize = scan_nonspace(s, 0);
    proof {
        lemma_idx_nonspace(s@, 0);
    }
    let b: usize = scan_space(s, a);
    proof {
        lemma_idx_space(s@, a as int);
    }
    s.substring_char(a, b)
}

/// What follows the first token of `s` and the whitespace run after it.
pub fn token_rest_str<'a>(s: &'a str) -> (r: &'a str)
    ensures
        r@ == token_rest(s@),
{
    let n: usize = s.unicode_len();
    let a: usize = scan_nonspace(s, 0);
    proof {
        lemma_idx_nonspace(s@, 0);
    }
    let b: usize = scan_space(s, a);
    proof {
        lemma_idx_space(s@, a as int);
    }
    let c: usize = scan_nonspace(s, b);
    proof {
        lemma_idx_nonspace(s@, b as int);
        assert(s@.subrange(c as int, n as int) =~= s@.skip(c as int));
    }
    s.substring_char(c, n)
}

/// The pattern `p` occurs in `s` starting at index `i`.
pub open spec fn occurs_at(s: Seq<char>, p: Seq<char>, i: int) -> bool {
    0 <= i && i + p.len() <= s.len() && s.subrange(i, i + p.len() as int) == p
}

/// `p` occurs somewhere in `s`.
pub open spec fn contains_seq(s: Seq<char>, p: Seq<char>) -> bool {
    exists|i: int| occurs_at(s, p, i)
}

/// Index of the first occurrence of `p` in `s` at or after `i`, or -1.
pub open spec fn first_occ_from(s: Seq<char>, p: Seq<char>, i: int) -> int
    decreases s.len() - i,
{
    if i < 0 || i + p.len() > s.len() {
        -1
    } else if occurs_at(s, p, i) {
        i
    } else if i == s.len() {
        -1
    } else {
        first_occ_from(s, p, i + 1)
    }
}

/// Index of the first occurrence of `p` in `s`, or -1 when there is none.
pub open spec fn first_occ(s: Seq<char>, p: Seq<char>) -> int {
    first_occ_from(s, p, 0)
}

pub proof fn lemma_first_occ_from(s: Seq<char>, p: Seq<char>, i: int)
    requires
        0 <= i,
    ensures
        first_occ_from(s, p, i) == -1 ==> forall|j: int| j >= i ==> !occurs_at(s, p, j),
        first_occ_from(s, p, i) != -1 ==> {
            &&& i <= first_occ_from(s, p, i)
            &&& occurs_at(s, p, first_occ_from(s, p, i))
            &&& forall|j: int| i <= j < first_occ_from(s, p, i) ==> !occurs_at(s, p, j)
        },
    decreases s.len() - i,
{
    if i + p.len() > s.len() {
        assert(forall|j: int| j >= i ==> !occurs_at(s, p, j));
    } else if !occurs_at(s, p, i) {
        if i == s.len() {
            assert(forall|j: int| j > i ==> !occurs_at(s, p, j));
        } else {
            lemma_first_occ_from(s, p, i + 1);
        }
    }
}

/// Occurrences in a suffix of `s` are occurrences in `s`, shifted.
pub proof fn lemma_occurs_shift(s: Seq<char>, p: Seq<char>, k: int, j: int)
    requires
        0 <= k <= s.len(),
        0 <= j,
    ensures
        occurs_at(s.skip(k), p, j) <==> occurs_at(s, p, j + k),
{
    if occurs_at(s.skip(k), p, j) {
        assert(s.subrange(j + k, j + k + p.len()) =~= s.skip(k).subrange(j, j + p.len() as int));
    }
    if occurs_at(s, p, j + k) {
        assert(s.skip(k).subrange(j, j + p.len() as int) =~= s.subrange(j + k, j + k + p.len()));
    }
}

/// `p` occurs in `s` exactly when its first occurrence exists.
pub proof fn lemma_contains_first_occ(s: Seq<char>, p: Seq<char>)
    ensures
        contains_seq(s, p) <==> first_occ(s, p) != -1,
{
    lemma_first_occ_from(s, p, 0);
    if contains_seq(s, p) {
        let w = choose|i: int| occurs_at(s, p, i);
        assert(w >= 0);
    }
}

/// Whether `p` occurs in `s` starting at character index `i`.
fn match_at(s: &str, p: &str, i: usize) -> (r: bool)
    requires
        i + p@.len() <= s@.len(),
        s@.len() <= usize::MAX,
    ensures
        r == occurs_at(s@, p@, i as int),
{
    let m: usize = p.unicode_len();
    let mut j: usize = 0;
    while j < m
        invariant
            j <= m,
            m == p@.len(),
            i + m <= s@.len(),
            s@.len() <= usize::MAX,
            forall|k: int| 0 <= k < j ==> s@[i + k] == p@[k],
        decreases m - j,
    {
        if s.get_char(i + j) != p.get_char(j) {
            proof {
                assert(s@.subrange(i as int, i + m) != p@) by {
                    assert(s@.subrange(i as int, i + m)[j as int] == s@[i + j]);
                }
            }
            return false;
        }
        j = j + 1;
    }
    proof {
        assert(s@.subrange(i as int, i + m) =~= p@);
    }
    true
}

/// Character index of the first occurrence of `p` in `s`, if any.
pub fn find_sub(s: &str, p: &str) -> (r: Option<usize>)
    ensures
        match r {
            Some(i) => i == first_occ(s@, p@) && occurs_at(s@, p@, i as int),
            None => first_occ(s@, p@) == -1,
        },
{
    let n: usize = s.unicode_len();
    let m: usize = p.unicode_len();
    if m > n {
        return None;
    }
    if m == 0 {
        proof {
            assert(s@.subrange(0, 0) =~= p@);
        }
        return Some(0);
    }
    let mut i: usize = 0;
    while i <= n - m
        invariant
            n == s@.len(),
            m == p@.len(),
            0 < m <= n,
            i <= n - m + 1,
            first_occ(s@, p@) == first_occ_from(s@, p@, i as int),
        decreases n - i,
    {
        if match_at(s, p, i) {
            return Some(i);
        }
        i = i + 1;
    }
    None
}

/// Whether `p` occurs anywhere in `s`.
pub fn contains_sub(s: &str, p: &str) -> (r: bool)
    ensures
        r == contains_seq(s@, p@),
{
    proof {
        lemma_contains_first_occ(s@, p@);
    }
    match find_sub(s, p) {
        Some(_) => true,
        None => false,
    }
}

/// Whether the two strings hold the same characters.
pub fn str_eq(a: &str, b: &str) -> (r: bool)
    ensures
        r == (a@ == b@),
{
    let n: usize = a.unicode_len();
    let m: usize = b.unicode_len();
    if n != m {
        return false;
    }
    let mut i: usize = 0;
    while i < n
        invariant
            i <= n,
            n == a@.len(),
            n == b@.len(),
            forall|j: int| 0 <= j < i ==> a@[j] == b@[j],
        decreases n - i,
    {
        if a.get_char(i) != b.get_char(i) {
            return false;
        }
        i = i + 1;
    }
    proof {
        assert(a@ =~= b@);
    }
    true
}

/// Lexicographic order on character sequences, by Unicode scalar value.
pub open spec fn lex_leq(a: Seq<char>, b: Seq<char>) -> bool
    decreases a.len(),
{
    if a.len() == 0 {
        true
    } else if b.len() == 0 {
        false
    } else if a[0] != b[0] {
        (a[0] as u32) < (b[0] as u32)
    } else {
        lex_leq(a.drop_first(), b.drop_first())
    }
}

/// Distinct characters have distinct Unicode scalar values.
proof fn lemma_char_cast_distinct(a: char, b: char)
    requires
        a != b,
    ensures
        (a as u32) != (b as u32),
{
    vstd::utf8::char_u32_cast(a, a as u32);
    vstd::utf8::char_u32_cast(b, b as u32);
}

/// Any two sequences compare in at least one direction.
pub proof fn lemma_lex_leq_total(a: Seq<char>, b: Seq<char>)
    ensures
        lex_leq(a, b) || lex_leq(b, a),
    decreases a.len(),
{
    if a.len() > 0 && b.len() > 0 {
        if a[0] == b[0] {
            lemma_lex_leq_total(a.drop_first(), b.drop_first());
        } else {
            lemma_char_cast_distinct(a[0], b[0]);
        }
    }
}

/// The lexicographic order is transitive.
pub proof fn lemma_lex_leq_trans(a: Seq<char>, b: Seq<char>, c: Seq<char>)
    requires
        lex_leq(a, b),
        lex_leq(b, c),
    ensures
        lex_leq(a, c),
    decreases a.len(),
{
    if a.len() > 0 && b.len() > 0 && c.len() > 0 && a[0] == b[0] && b[0] == c[0] {
        lemma_lex_leq_trans(a.drop_first(), b.drop_first(), c.drop_first());
    }
}

/// Whether `a` is at or before `b` in lexicographic order.
pub fn str_leq(a: &str, b: &str) -> (r: bool)
    ensures
        r == lex_leq(a@, b@),
{
    let n: usize = a.unicode_len();
    let m: usize = b.unicode_len();
    proof {
        assert(a@.skip(0) =~= a@);
        assert(b@.skip(0) =~= b@);
    }
    let mut i: usize = 0;
    while i < n && i < m
        invariant
            i <= n,
            i <= m,
            n == a@.len(),
            m == b@.len(),
            forall|j: int| 0 <= j < i ==> a@[j] == b@[j],
            lex_leq(a@, b@) == lex_leq(a@.skip(i as int), b@.skip(i as int)),
        decreases n - i,
    {
        let x = a.get_char(i);
        let y = b.get_char(i);
        if x != y {
            proof {
                assert(a@.skip(i as int)[0] == a@[i as int]);
                assert(b@.skip(i as int)[0] == b@[i as int]);
            }
            return (x as u32) < (y as u32);
        }
        proof {
            assert(a@.skip(i as int).drop_first() =~= a@.skip(i + 1));
            assert(b@.skip(i as int).drop_first() =~= b@.skip(i + 1));
            assert(a@.skip(i as int)[0] == b@.skip(i as int)[0]);
        }
        i = i + 1;
    }
    proof {
        if i == n {
            assert(a@.skip(i as int).len() == 0);
        } else {
            assert(b@.skip(i as int).len() == 0);
            assert(a@.skip(i as int).len() > 0);
        }
    }
    i == n
}

/// The query encoding: every space becomes `+`, all else is unchanged.
pub open spec fn plus_encoded(q: Seq<char>) -> Seq<char> {
    Seq::new(q.len(), |i: int| if q[i] == ' ' { '+' } else { q[i] })
}

/// Relies on String::push: appends the given character to the end of the string.
#[verifier::external_body]
fn push_char(s: &mut String, c: char)
    ensures
        final(s)@ == old(s)@.push(c),
{
    s.push(c);
}

/// Encode a query for a search URL by replacing each space with `+`.
pub fn encode_plus(q: &str) -> (r: String)
    ensures
        r@ == plus_encoded(q@),
{
    let n: usize = q.unicode_len();
    let mut out = String::new();
    let mut i: usize = 0;
    while i < n
        invariant
            i <= n,
            n == q@.len(),
            out@ == plus_encoded(q@.take(i as int)),
        decreases n - i,
    {
        let c = q.get_char(i);
        if c == ' ' {
            push_char(&mut out, '+');
        } else {
            push_char(&mut out, c);
        }
        proof {
            assert(out@ =~= plus_encoded(q@.take(i + 1)));
        }
        i = i + 1;
    }
    proof {
        assert(q@.take(n as int) =~= q@);
    }
    out
}

} // verus!
