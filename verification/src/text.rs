//! Character-level helpers on text: whitespace, trimming, substring search
//! and the code-point order of strings.
//!
//! Text is modelled as `Seq<char>`, the view of `str` and `String`.

use vstd::prelude::*;

verus! {

/// Whether `c` carries the Unicode `White_Space` property.
pub open spec fn is_white_space(c: char) -> bool {
    let n = c as u32;
    ||| 0x09 <= n <= 0x0D
    ||| n == 0x20
    ||| n == 0x85
    ||| n == 0xA0
    ||| n == 0x1680
    ||| 0x2000 <= n <= 0x200A
    ||| n == 0x2028
    ||| n == 0x2029
    ||| n == 0x202F
    ||| n == 0x205F
    ||| n == 0x3000
}

/// How many characters at the front of `s` are whitespace.
pub open spec fn leading_white_space(s: Seq<char>) -> nat
    decreases s.len(),
{
    if s.len() > 0 && is_white_space(s.first()) {
        1 + leading_white_space(s.drop_first())
    } else {
        0
    }
}

/// How many characters at the back of `s` are whitespace.
pub open spec fn trailing_white_space(s: Seq<char>) -> nat
    decreases s.len(),
{
    if s.len() > 0 && is_white_space(s.last()) {
        1 + trailing_white_space(s.drop_last())
    } else {
        0
    }
}

/// `s` without its leading whitespace.
pub open spec fn trimmed_start(s: Seq<char>) -> Seq<char> {
    s.skip(leading_white_space(s) as int)
}

/// `s` without its leading and trailing whitespace.
pub open spec fn trimmed(s: Seq<char>) -> Seq<char> {
    let rest = trimmed_start(s);
    rest.take(rest.len() - trailing_white_space(rest))
}

/// Whether `s` is empty or holds whitespace only.
pub open spec fn is_blank(s: Seq<char>) -> bool {
    forall|i: int| 0 <= i < s.len() ==> is_white_space(#[trigger] s[i])
}

/// Whether `needle` occurs in `hay` starting at position `at`.
pub open spec fn occurs_at(hay: Seq<char>, needle: Seq<char>, at: int) -> bool {
    &&& 0 <= at
    &&& at + needle.len() <= hay.len()
    &&& hay.subrange(at, at + needle.len()) == needle
}

/// Whether `needle` occurs somewhere in `hay` as a contiguous run of
/// characters. The empty text occurs in every text.
pub open spec fn contains_text(hay: Seq<char>, needle: Seq<char>) -> bool {
    exists|at: int| occurs_at(hay, needle, at)
}

/// Whether `c` belongs to one of Unicode's general categories for numbers,
/// as `char::is_numeric` reports it.
pub uninterp spec fn is_numeric(c: char) -> bool;

/// How many characters of `s` are numeric.
pub open spec fn numeric_count(s: Seq<char>) -> nat
    decreases s.len(),
{
    if s.len() == 0 {
        0
    } else {
        numeric_count(s.drop_last()) + if is_numeric(s.last()) {
            1nat
        } else {
            0nat
        }
    }
}

/// Code-point order on text: `a` sorts strictly before `b`.
pub open spec fn text_lt(a: Seq<char>, b: Seq<char>) -> bool
    decreases a.len(),
{
    if b.len() == 0 {
        false
    } else if a.len() == 0 {
        true
    } else if a.first() != b.first() {
        (a.first() as u32) < (b.first() as u32)
    } else {
        text_lt(a.drop_first(), b.drop_first())
    }
}

/// A text has no more leading whitespace than characters.
pub proof fn lemma_leading_bound(s: Seq<char>)
    ensures
        leading_white_space(s) <= s.len(),
    decreases s.len(),
{
    if s.len() > 0 && is_white_space(s.first()) {
        lemma_leading_bound(s.drop_first());
    }
}

/// A text has no more trailing whitespace than characters.
pub proof fn lemma_trailing_bound(s: Seq<char>)
    ensures
        trailing_white_space(s) <= s.len(),
    decreases s.len(),
{
    if s.len() > 0 && is_white_space(s.last()) {
        lemma_trailing_bound(s.drop_last());
    }
}

/// Text that neither starts nor ends with whitespace is its own trimmed form.
pub proof fn lemma_trimmed_unchanged(s: Seq<char>)
    requires
        s.len() > 0 ==> !is_white_space(s.first()) && !is_white_space(s.last()),
    ensures
        trimmed(s) == s,
{
    assert(leading_white_space(s) == 0);
    assert(s.skip(0) =~= s);
    assert(trailing_white_space(s) == 0);
    assert(s.take(s.len() as int) =~= s);
}

/// The trimmed form of text neither starts nor ends with whitespace.
pub proof fn lemma_trimmed_ends(s: Seq<char>)
    ensures
        trimmed(s).len() > 0 ==> !is_white_space(trimmed(s).first()) && !is_white_space(
            trimmed(s).last(),
        ),
{
    lemma_trimmed_start_first(s);
    let rest = trimmed_start(s);
    lemma_trailing_last(rest);
    lemma_trailing_bound(rest);
    let t = trimmed(s);
    if t.len() > 0 {
        assert(t.first() == rest.first());
        if trailing_white_space(rest) == 0 {
            assert(t =~= rest);
        }
    }
}

proof fn lemma_trimmed_start_first(s: Seq<char>)
    ensures
        trimmed_start(s).len() > 0 ==> !is_white_space(trimmed_start(s).first()),
        leading_white_space(s) <= s.len(),
    decreases s.len(),
{
    lemma_leading_bound(s);
    if s.len() > 0 && is_white_space(s.first()) {
        lemma_trimmed_start_first(s.drop_first());
        assert(s.drop_first().skip(leading_white_space(s.drop_first()) as int) =~= s.skip(
            leading_white_space(s) as int,
        ));
    } else {
        assert(s.skip(0) =~= s);
    }
}

proof fn lemma_trailing_last(s: Seq<char>)
    ensures
        trailing_white_space(s) <= s.len(),
        trailing_white_space(s) < s.len() ==> !is_white_space(
            s[s.len() - trailing_white_space(s) - 1],
        ),
    decreases s.len(),
{
    lemma_trailing_bound(s);
    if s.len() > 0 && is_white_space(s.last()) {
        lemma_trailing_last(s.drop_last());
    }
}

/// Blank text trims to the empty text, and only blank text does.
pub proof fn lemma_blank_iff_trimmed_empty(s: Seq<char>)
    ensures
        is_blank(s) <==> trimmed(s).len() == 0,
    decreases s.len(),
{
    lemma_leading_all(s);
    lemma_leading_bound(s);
    let rest = trimmed_start(s);
    lemma_trailing_bound(rest);
    lemma_trimmed_start_first(s);
    if is_blank(s) {
        assert(leading_white_space(s) == s.len());
    }
    if trimmed(s).len() == 0 {
        if rest.len() > 0 {
            lemma_trailing_all(rest);
            assert(trailing_white_space(rest) == rest.len());
            assert(is_white_space(rest[0]));
            assert(false);
        }
        assert(leading_white_space(s) == s.len());
    }
}

proof fn lemma_leading_all(s: Seq<char>)
    ensures
        leading_white_space(s) == s.len() <==> is_blank(s),
    decreases s.len(),
{
    lemma_leading_bound(s);
    if s.len() > 0 {
        let rest = s.drop_first();
        lemma_leading_all(rest);
        lemma_leading_bound(rest);
        if is_white_space(s.first()) {
            if is_blank(rest) {
                assert forall|i: int| 0 <= i < s.len() implies is_white_space(#[trigger] s[i]) by {
                    if i > 0 {
                        assert(s[i] == rest[i - 1]);
                    }
                }
            }
            if is_blank(s) {
                assert forall|i: int| 0 <= i < rest.len() implies is_white_space(
                    #[trigger] rest[i],
                ) by {
                    assert(rest[i] == s[i + 1]);
                }
            }
        } else {
            assert(!is_white_space(s[0]));
        }
    }
}

proof fn lemma_trailing_all(s: Seq<char>)
    ensures
        trailing_white_space(s) == s.len() ==> is_blank(s),
    decreases s.len(),
{
    lemma_trailing_bound(s);
    if s.len() > 0 && is_white_space(s.last()) {
        let rest = s.drop_last();
        lemma_trailing_all(rest);
        lemma_trailing_bound(rest);
        if trailing_white_space(s) == s.len() {
            assert forall|i: int| 0 <= i < s.len() implies is_white_space(#[trigger] s[i]) by {
                if i < rest.len() {
                    assert(s[i] == rest[i]);
                }
            }
        }
    }
}

/// The order on text is irreflexive.
pub proof fn lemma_text_lt_irreflexive(a: Seq<char>)
    ensures
        !text_lt(a, a),
    decreases a.len(),
{
    if a.len() > 0 {
        lemma_text_lt_irreflexive(a.drop_first());
    }
}

/// The order on text is total: two texts are equal or one sorts before the
/// other.
pub proof fn lemma_text_lt_total(a: Seq<char>, b: Seq<char>)
    ensures
        a == b || text_lt(a, b) || text_lt(b, a),
    decreases a.len(),
{
    if a.len() > 0 && b.len() > 0 && a.first() == b.first() {
        lemma_text_lt_total(a.drop_first(), b.drop_first());
        if a.drop_first() == b.drop_first() {
            assert(a =~= seq![a.first()] + a.drop_first());
            assert(b =~= seq![b.first()] + b.drop_first());
        }
    } else if a.len() == 0 && b.len() == 0 {
        assert(a =~= b);
    } else if a.len() > 0 && b.len() > 0 {
        lemma_code_point_injective(a.first(), b.first());
    }
}

/// Two characters with the same code point are the same character.
pub proof fn lemma_code_point_injective(c: char, d: char)
    ensures
        c as u32 == d as u32 ==> c == d,
{
    assert(c as u32 == d as u32 ==> (c as u32) as char == (d as u32) as char);
}

/// The order on text is transitive.
pub proof fn lemma_text_lt_transitive(a: Seq<char>, b: Seq<char>, c: Seq<char>)
    requires
        text_lt(a, b),
        text_lt(b, c),
    ensures
        text_lt(a, c),
    decreases a.len(),
{
    if a.len() > 0 && b.len() > 0 && c.len() > 0 && a.first() == b.first() && b.first()
        == c.first() {
        lemma_text_lt_transitive(a.drop_first(), b.drop_first(), c.drop_first());
    }
}

/// A prefix of a text holds no more numeric characters than the text.
pub proof fn lemma_numeric_count_take(s: Seq<char>, k: int)
    requires
        0 <= k <= s.len(),
    ensures
        numeric_count(s.take(k)) <= numeric_count(s),
    decreases s.len(),
{
    if k == s.len() {
        assert(s.take(k) =~= s);
    } else {
        lemma_numeric_count_take(s.drop_last(), k);
        assert(s.drop_last().take(k) =~= s.take(k));
    }
}

/// A suffix of a text holds no more numeric characters than the text.
pub proof fn lemma_numeric_count_skip(s: Seq<char>, k: int)
    requires
        0 <= k <= s.len(),
    ensures
        numeric_count(s.skip(k)) <= numeric_count(s),
    decreases s.len(),
{
    if k == s.len() {
        assert(s.skip(k).len() == 0);
    } else {
        lemma_numeric_count_skip(s.drop_last(), k);
        assert(s.drop_last().skip(k) =~= s.skip(k).drop_last());
        assert(s.skip(k).last() == s.last());
    }
}

/// Trimming adds no numeric character.
pub proof fn lemma_numeric_count_trimmed(s: Seq<char>)
    ensures
        numeric_count(trimmed(s)) <= numeric_count(s),
{
    lemma_leading_bound(s);
    let rest = trimmed_start(s);
    lemma_trailing_bound(rest);
    lemma_numeric_count_skip(s, leading_white_space(s) as int);
    lemma_numeric_count_take(rest, rest.len() - trailing_white_space(rest));
}

/// Calls `char::is_numeric`.
///
/// Trusted: the result is what the standard library reports for `c`, which
/// depends on the character alone.
#[verifier::external_body]
pub(crate) fn char_is_numeric(c: char) -> (b: bool)
    ensures
        b == is_numeric(c),
{
    c.is_numeric()
}

/// Counts the numeric characters of `s`.
pub fn count_numeric(s: &str) -> (n: usize)
    ensures
        n == numeric_count(s@),
{
    let chars = chars_of(s);
    let len = chars.len();
    let mut n: usize = 0;
    let mut i: usize = 0;
    assert(chars@.take(0).len() == 0);
    while i < len
        invariant
            i <= len,
            len == chars@.len(),
            n <= i,
            n == numeric_count(chars@.take(i as int)),
        decreases len - i,
    {
        assert(chars@.take(i + 1).drop_last() =~= chars@.take(i as int));
        assert(chars@.take(i + 1).last() == chars@[i as int]);
        if char_is_numeric(chars[i]) {
            n += 1;
        }
        i += 1;
    }
    assert(chars@.take(len as int) =~= chars@);
    n
}

/// Executable test for the `White_Space` property.
pub fn char_is_white_space(c: char) -> (b: bool)
    ensures
        b == is_white_space(c),
{
    let n: u32 = c as u32;
    (0x09 <= n && n <= 0x0D) || n == 0x20 || n == 0x85 || n == 0xA0 || n == 0x1680 || (0x2000 <= n
        && n <= 0x200A) || n == 0x2028 || n == 0x2029 || n == 0x202F || n == 0x205F || n == 0x3000
}

/// The characters of `s`, in order.
pub fn chars_of(s: &str) -> (v: Vec<char>)
    ensures
        v@ == s@,
{
    let mut v: Vec<char> = Vec::new();
    for c in it: s.chars()
        invariant
            v@ == it.seq().take(it.index()),
            it.seq() == s@,
    {
        v.push(c);
    }
    v
}

/// Strips leading and trailing whitespace.
pub fn trim(s: &str) -> (t: &str)
    ensures
        t@ == trimmed(s@),
{
    let chars = chars_of(s);
    let n = chars.len();
    let mut lo: usize = 0;
    assert(chars@.skip(0) =~= chars@);
    while lo < n && char_is_white_space(chars[lo])
        invariant
            lo <= n,
            n == chars@.len(),
            leading_white_space(chars@) == lo + leading_white_space(chars@.skip(lo as int)),
        decreases n - lo,
    {
        assert(chars@.skip(lo as int).drop_first() =~= chars@.skip(lo as int + 1));
        lo += 1;
    }
    let ghost rest = chars@.skip(lo as int);
    assert(leading_white_space(rest) == 0);
    assert(rest == trimmed_start(chars@));
    let mut hi: usize = n;
    assert(rest.take(n - lo) =~= rest);
    while hi > lo && char_is_white_space(chars[hi - 1])
        invariant
            lo <= hi <= n,
            n == chars@.len(),
            rest == chars@.skip(lo as int),
            trailing_white_space(rest) == (n - hi) + trailing_white_space(rest.take(hi - lo)),
        decreases hi,
    {
        assert(rest.take(hi - lo).last() == chars@[hi - 1]);
        assert(rest.take(hi - lo).drop_last() =~= rest.take(hi - lo - 1));
        hi -= 1;
    }
    assert(rest.take(hi - lo).len() > 0 ==> rest.take(hi - lo).last() == chars@[hi - 1]);
    assert(trailing_white_space(rest.take(hi - lo)) == 0);
    assert(rest.take(hi - lo) =~= chars@.subrange(lo as int, hi as int));
    s.substring_char(lo, hi)
}

/// Whether the text is empty or whitespace only.
pub fn text_is_blank(s: &str) -> (b: bool)
    ensures
        b == is_blank(s@),
{
    let chars = chars_of(s);
    let n = chars.len();
    let mut i: usize = 0;
    while i < n
        invariant
            i <= n,
            n == chars@.len(),
            chars@ == s@,
            forall|k: int| 0 <= k < i ==> is_white_space(#[trigger] s@[k]),
        decreases n - i,
    {
        if !char_is_white_space(chars[i]) {
            return false;
        }
        i += 1;
    }
    true
}

/// Whether `needle` occurs in `hay` at position `at`.
fn matches_at(hay: &Vec<char>, needle: &Vec<char>, at: usize) -> (b: bool)
    requires
        at + needle@.len() <= hay@.len(),
    ensures
        b == occurs_at(hay@, needle@, at as int),
{
    let m = needle.len();
    let n = hay.len();
    let mut j: usize = 0;
    while j < m
        invariant
            j <= m,
            m == needle@.len(),
            n == hay@.len(),
            at + m <= n,
            forall|k: int| 0 <= k < j ==> hay@[at + k] == needle@[k],
        decreases m - j,
    {
        if hay[at + j] != needle[j] {
            assert(hay@.subrange(at as int, at + m)[j as int] != needle@[j as int]);
            return false;
        }
        j += 1;
    }
    assert(hay@.subrange(at as int, at + m) =~= needle@);
    true
}

/// Whether `needle` occurs in `hay`, compared character by character
/// (case-sensitive).
pub fn text_contains(hay: &str, needle: &str) -> (b: bool)
    ensures
        b == contains_text(hay@, needle@),
{
    let h = chars_of(hay);
    let p = chars_of(needle);
    if p.len() > h.len() {
        return false;
    }
    let last: usize = h.len() - p.len();
    let mut at: usize = 0;
    loop
        invariant
            at <= last,
            last == h@.len() - p@.len(),
            h@ == hay@,
            p@ == needle@,
            forall|k: int| 0 <= k < at ==> !occurs_at(hay@, needle@, k),
        decreases last - at,
    {
        if matches_at(&h, &p, at) {
            return true;
        }
        if at == last {
            return false;
        }
        at += 1;
    }
}

/// Whether `a` sorts strictly before `b` in code-point order.
pub fn text_less(a: &str, b: &str) -> (r: bool)
    ensures
        r == text_lt(a@, b@),
{
    let x = chars_of(a);
    let y = chars_of(b);
    let mut i: usize = 0;
    assert(x@.skip(0) =~= x@);
    assert(y@.skip(0) =~= y@);
    while i < x.len() && i < y.len()
        invariant
            i <= x@.len(),
            i <= y@.len(),
            x@ == a@,
            y@ == b@,
            text_lt(a@, b@) == text_lt(x@.skip(i as int), y@.skip(i as int)),
        decreases x@.len() - i,
    {
        let ghost xs = x@.skip(i as int);
        let ghost ys = y@.skip(i as int);
        assert(xs.first() == x@[i as int]);
        assert(ys.first() == y@[i as int]);
        if x[i] != y[i] {
            return (x[i] as u32) < (y[i] as u32);
        }
        assert(xs.drop_first() =~= x@.skip(i as int + 1));
        assert(ys.drop_first() =~= y@.skip(i as int + 1));
        i += 1;
    }
    i < y.len()
}

} // verus!
