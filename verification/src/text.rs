//! Text as sequences of characters.
//!
//! The specifications of this crate speak of a string as its `Seq<char>` view. This module
//! holds the vocabulary they share (searching, splitting, trimming, ASCII case, decimal and
//! hexadecimal digits, ordering) together with executable functions that compute each notion.

use vstd::prelude::*;

verus! {

// ---------------------------------------------------------------------------
// Outside functions
// ---------------------------------------------------------------------------

/// `String::push`: appends one character to the end of the string.
pub assume_specification[ String::push ](s: &mut String, c: char)
    ensures
        final(s)@ == old(s)@.push(c),
;

/// What the standard library's `Debug` formatting writes for a string with these characters:
/// the text between double quotes, with control characters, quotes and backslashes escaped.
pub uninterp spec fn debug_quoted(s: Seq<char>) -> Seq<char>;

/// `format!("{:?}")` of a string, whose result depends on the characters of the string alone.
#[verifier::external_body]
pub(crate) fn quoted(s: &str) -> (r: String)
    ensures
        r@ == debug_quoted(s@),
{
    format!("{s:?}")
}

// ---------------------------------------------------------------------------
// Characters
// ---------------------------------------------------------------------------

/// The characters with Unicode's `White_Space` property.
pub open spec fn is_white(c: char) -> bool {
    ||| '\u{9}' <= c <= '\u{d}'
    ||| c == ' '
    ||| c == '\u{85}'
    ||| c == '\u{a0}'
    ||| c == '\u{1680}'
    ||| '\u{2000}' <= c <= '\u{200a}'
    ||| c == '\u{2028}'
    ||| c == '\u{2029}'
    ||| c == '\u{202f}'
    ||| c == '\u{205f}'
    ||| c == '\u{3000}'
}

/// Whether a character is white space.
pub fn white(c: char) -> (r: bool)
    ensures
        r == is_white(c),
{
    ('\u{9}' <= c && c <= '\u{d}') || c == ' ' || c == '\u{85}' || c == '\u{a0}' || c == '\u{1680}'
        || ('\u{2000}' <= c && c <= '\u{200a}') || c == '\u{2028}' || c == '\u{2029}' || c
        == '\u{202f}' || c == '\u{205f}' || c == '\u{3000}'
}

/// The ASCII decimal digits.
pub open spec fn is_digit(c: char) -> bool {
    '0' <= c <= '9'
}

/// The ASCII letters and digits.
pub open spec fn is_alnum(c: char) -> bool {
    ||| '0' <= c <= '9'
    ||| 'a' <= c <= 'z'
    ||| 'A' <= c <= 'Z'
}

/// Whether a character is an ASCII letter or digit.
pub fn alnum(c: char) -> (r: bool)
    ensures
        r == is_alnum(c),
{
    ('0' <= c && c <= '9') || ('a' <= c && c <= 'z') || ('A' <= c && c <= 'Z')
}

/// The ASCII lower-case form of a character; other characters stand for themselves.
pub open spec fn lower_char(c: char) -> char {
    if 'A' <= c <= 'Z' {
        ((c as u8) + 32) as char
    } else {
        c
    }
}

/// The ASCII upper-case form of a character; other characters stand for themselves.
pub open spec fn upper_char(c: char) -> char {
    if 'a' <= c <= 'z' {
        ((c as u8) - 32) as char
    } else {
        c
    }
}

/// The ASCII lower-case form of a text.
pub open spec fn lower(s: Seq<char>) -> Seq<char> {
    Seq::new(s.len(), |i: int| lower_char(s[i]))
}

/// The ASCII upper-case form of a text.
pub open spec fn upper(s: Seq<char>) -> Seq<char> {
    Seq::new(s.len(), |i: int| upper_char(s[i]))
}

// ---------------------------------------------------------------------------
// Strings and vectors of characters
// ---------------------------------------------------------------------------

/// The characters of a string.
pub fn chars_of(s: &str) -> (r: Vec<char>)
    ensures
        r@ == s@,
{
    let mut out: Vec<char> = Vec::new();
    for c in it: s.chars()
        invariant
            it.seq() == s@,
            out@ == s@.take(it.index()),
    {
        out.push(c);
    }
    assert(s@.take(s@.len() as int) =~= s@);
    out
}

/// The string with the given characters.
pub fn string_of(s: &[char]) -> (r: String)
    ensures
        r@ == s@,
{
    let mut out = String::new();
    for i in 0..s.len()
        invariant
            out@ == s@.take(i as int),
    {
        out.push(s[i]);
    }
    assert(s@.take(s@.len() as int) =~= s@);
    out
}

/// The string with the characters `from..to` of a text.
pub fn slice_string(s: &[char], from: usize, to: usize) -> (r: String)
    requires
        from <= to <= s@.len(),
    ensures
        r@ == s@.subrange(from as int, to as int),
{
    let mut out = String::new();
    for i in from..to
        invariant
            from <= i <= to <= s@.len(),
            out@ == s@.subrange(from as int, i as int),
    {
        out.push(s[i]);
        assert(s@.subrange(from as int, i + 1) =~= s@.subrange(from as int, i as int).push(
            s@[i as int],
        ));
    }
    out
}

/// The characters `from..to` of a text.
pub fn slice_of(s: &[char], from: usize, to: usize) -> (r: Vec<char>)
    requires
        from <= to <= s@.len(),
    ensures
        r@ == s@.subrange(from as int, to as int),
{
    vstd::slice::slice_to_vec(vstd::slice::slice_subrange(s, from, to))
}

/// Whether two texts are the same.
pub fn same_chars(a: &[char], b: &[char]) -> (r: bool)
    ensures
        r == (a@ == b@),
{
    if a.len() != b.len() {
        return false;
    }
    for i in 0..a.len()
        invariant
            a@.len() == b@.len(),
            forall|j: int| 0 <= j < i ==> a@[j] == b@[j],
    {
        if a[i] != b[i] {
            return false;
        }
    }
    assert(a@ =~= b@);
    true
}

/// Whether two strings are the same.
pub fn same(a: &str, b: &str) -> (r: bool)
    ensures
        r == (a@ == b@),
{
    same_chars(&chars_of(a), &chars_of(b))
}

/// A string of one's own with the same characters.
pub fn owned(s: &str) -> (r: String)
    ensures
        r@ == s@,
{
    s.to_owned()
}

/// Two strings, one after the other.
pub fn cat2(a: &str, b: &str) -> (r: String)
    ensures
        r@ == a@ + b@,
{
    let mut out = a.to_owned();
    out.append(b);
    out
}

/// Three strings, one after the other.
pub fn cat3(a: &str, b: &str, c: &str) -> (r: String)
    ensures
        r@ == a@ + b@ + c@,
{
    let mut out = cat2(a, b);
    out.append(c);
    out
}

/// Four strings, one after the other.
pub fn cat4(a: &str, b: &str, c: &str, d: &str) -> (r: String)
    ensures
        r@ == a@ + b@ + c@ + d@,
{
    let mut out = cat3(a, b, c);
    out.append(d);
    out
}

/// Five strings, one after the other.
pub fn cat5(a: &str, b: &str, c: &str, d: &str, e: &str) -> (r: String)
    ensures
        r@ == a@ + b@ + c@ + d@ + e@,
{
    let mut out = cat4(a, b, c, d);
    out.append(e);
    out
}

/// The views of a list of strings.
pub open spec fn views(v: Seq<String>) -> Seq<Seq<char>> {
    Seq::new(v.len(), |i: int| v[i]@)
}

/// The views of a list of character vectors.
pub open spec fn char_views(v: Seq<Vec<char>>) -> Seq<Seq<char>> {
    Seq::new(v.len(), |i: int| v[i]@)
}

/// Whether a list of strings holds one with the given characters.
pub fn contains_str(v: &Vec<String>, s: &str) -> (r: bool)
    ensures
        r == views(v@).contains(s@),
{
    let want = chars_of(s);
    for i in 0..v.len()
        invariant
            want@ == s@,
            forall|j: int| 0 <= j < i ==> v@[j]@ != s@,
    {
        if same_chars(&chars_of(v[i].as_str()), &want) {
            assert(views(v@)[i as int] == s@);
            return true;
        }
    }
    assert forall|j: int| 0 <= j < views(v@).len() implies views(v@)[j] != s@ by {
        assert(views(v@)[j] == v@[j]@);
    }
    false
}

// ---------------------------------------------------------------------------
// Searching
// ---------------------------------------------------------------------------

/// The first index at or after `i` that holds `c`, or the length when there is none.
pub open spec fn find_from(s: Seq<char>, c: char, i: int) -> int
    decreases s.len() - i,
{
    if i >= s.len() {
        s.len() as int
    } else if s[i] == c {
        i
    } else {
        find_from(s, c, i + 1)
    }
}

/// The last index below `i` that holds `c`, or -1 when there is none.
pub open spec fn rfind_below(s: Seq<char>, c: char, i: int) -> int
    decreases i,
{
    if i <= 0 {
        -1
    } else if s[i - 1] == c {
        i - 1
    } else {
        rfind_below(s, c, i - 1)
    }
}

/// The first index that holds `c`, or the length when there is none.
pub open spec fn find(s: Seq<char>, c: char) -> int {
    find_from(s, c, 0)
}

/// The last index that holds `c`, or -1 when there is none.
pub open spec fn rfind(s: Seq<char>, c: char) -> int {
    rfind_below(s, c, s.len() as int)
}

/// Whether the text `p` stands in `s` at index `i`.
pub open spec fn stands_at(s: Seq<char>, p: Seq<char>, i: int) -> bool {
    0 <= i && i + p.len() <= s.len() && s.subrange(i, i + p.len()) == p
}

/// The first index at or after `i` where the text `p` stands, or -1 when there is none.
pub open spec fn find_text_from(s: Seq<char>, p: Seq<char>, i: int) -> int
    decreases s.len() + 1 - i,
{
    if i + p.len() > s.len() {
        -1
    } else if stands_at(s, p, i) {
        i
    } else {
        find_text_from(s, p, i + 1)
    }
}

/// The first index where the text `p` stands, or -1 when there is none.
pub open spec fn find_text(s: Seq<char>, p: Seq<char>) -> int {
    find_text_from(s, p, 0)
}

/// The last index at or below `i` where the text `p` stands, or -1 when there is none.
pub open spec fn rfind_text_below(s: Seq<char>, p: Seq<char>, i: int) -> int
    decreases i + 1,
{
    if i < 0 {
        -1
    } else if stands_at(s, p, i) {
        i
    } else {
        rfind_text_below(s, p, i - 1)
    }
}

/// The last index where the text `p` stands, or -1 when there is none.
pub open spec fn rfind_text(s: Seq<char>, p: Seq<char>) -> int {
    rfind_text_below(s, p, s.len() - p.len())
}

/// Where [`find_from`] lands.
pub proof fn lemma_find_from(s: Seq<char>, c: char, i: int)
    requires
        0 <= i <= s.len(),
    ensures
        i <= find_from(s, c, i) <= s.len(),
        find_from(s, c, i) < s.len() ==> s[find_from(s, c, i)] == c,
        forall|j: int| i <= j < find_from(s, c, i) ==> s[j] != c,
    decreases s.len() - i,
{
    if i < s.len() && s[i] != c {
        lemma_find_from(s, c, i + 1);
    }
}

/// A character is in a text exactly when [`find`] finds it.
pub proof fn lemma_find_contains(s: Seq<char>, c: char)
    ensures
        s.contains(c) <==> find(s, c) < s.len(),
        0 <= find(s, c) <= s.len(),
{
    lemma_find_from(s, c, 0);
    if s.contains(c) {
        let k = choose|k: int| 0 <= k < s.len() && s[k] == c;
        assert(!(k < find(s, c)));
    }
}

/// Where [`rfind_below`] lands.
pub proof fn lemma_rfind_below(s: Seq<char>, c: char, i: int)
    requires
        0 <= i <= s.len(),
    ensures
        -1 <= rfind_below(s, c, i) < i || (i == 0 && rfind_below(s, c, i) == -1),
        rfind_below(s, c, i) >= 0 ==> s[rfind_below(s, c, i)] == c,
        forall|j: int| rfind_below(s, c, i) < j < i ==> s[j] != c,
    decreases i,
{
    if i > 0 && s[i - 1] != c {
        lemma_rfind_below(s, c, i - 1);
    }
}

/// The first index at or after `from` that holds `c`, if there is one.
pub fn position_from(s: &[char], c: char, from: usize) -> (r: Option<usize>)
    requires
        from <= s@.len(),
    ensures
        match r {
            Some(i) => i < s.len() && i == find_from(s@, c, from as int),
            None => find_from(s@, c, from as int) == s@.len(),
        },
{
    let mut i: usize = from;
    while i < s.len()
        invariant
            from <= i <= s@.len(),
            find_from(s@, c, from as int) == find_from(s@, c, i as int),
        decreases s@.len() - i,
    {
        if s[i] == c {
            return Some(i);
        }
        i += 1;
    }
    None
}

/// The first index that holds `c`, if there is one.
pub fn position(s: &[char], c: char) -> (r: Option<usize>)
    ensures
        match r {
            Some(i) => i < s.len() && i == find(s@, c),
            None => find(s@, c) == s@.len(),
        },
{
    position_from(s, c, 0)
}

/// The last index that holds `c`, if there is one.
pub fn rposition(s: &[char], c: char) -> (r: Option<usize>)
    ensures
        match r {
            Some(i) => i < s.len() && i == rfind(s@, c),
            None => rfind(s@, c) == -1,
        },
{
    let mut i: usize = s.len();
    while i > 0
        invariant
            0 <= i <= s@.len(),
            rfind(s@, c) == rfind_below(s@, c, i as int),
        decreases i,
    {
        if s[i - 1] == c {
            return Some(i - 1);
        }
        i -= 1;
    }
    None
}

/// Whether a text holds a character.
pub fn contains_char(s: &[char], c: char) -> (r: bool)
    ensures
        r == s@.contains(c),
{
    proof {
        lemma_find_contains(s@, c);
    }
    position(s, c).is_some()
}

/// Whether the text `p` stands in `s` at index `i`.
pub fn text_at(s: &[char], p: &[char], i: usize) -> (r: bool)
    ensures
        r == stands_at(s@, p@, i as int),
{
    if i > s.len() || p.len() > s.len() - i {
        return false;
    }
    for j in 0..p.len()
        invariant
            i + p@.len() <= s@.len() == s.len(),
            forall|k: int| 0 <= k < j ==> s@[i + k] == p@[k],
    {
        if s[i + j] != p[j] {
            assert(s@.subrange(i as int, i + p@.len())[j as int] != p@[j as int]);
            return false;
        }
    }
    assert(s@.subrange(i as int, i + p@.len()) =~= p@);
    true
}

/// Whether a text begins with `p`.
pub fn starts_with(s: &[char], p: &str) -> (r: bool)
    ensures
        r == p@.is_prefix_of(s@),
{
    let p = chars_of(p);
    assert(0 + p@.len() == p@.len());
    text_at(s, &p, 0)
}

/// Whether a text ends with `p`.
pub fn ends_with(s: &[char], p: &str) -> (r: bool)
    ensures
        r == p@.is_suffix_of(s@),
{
    let p = chars_of(p);
    if p.len() > s.len() {
        return false;
    }
    let at: usize = s.len() - p.len();
    text_at(s, &p, at)
}

/// The first index where the text `p` stands, if there is one.
pub fn text_position(s: &[char], p: &str) -> (r: Option<usize>)
    ensures
        match r {
            Some(i) => i + p@.len() <= s.len() && i == find_text(s@, p@),
            None => find_text(s@, p@) == -1,
        },
{
    let want = chars_of(p);
    if want.len() > s.len() {
        return None;
    }
    let last: usize = s.len() - want.len();
    let mut i: usize = 0;
    while i <= last
        invariant
            want@ == p@,
            find_text(s@, p@) == find_text_from(s@, p@, i as int),
            0 <= i <= last + 1,
            last + p@.len() == s@.len() == s.len(),
        decreases last + 1 - i,
    {
        if text_at(s, &want, i) {
            return Some(i);
        }
        if i == last {
            assert(find_text_from(s@, p@, i + 1) == -1);
            return None;
        }
        i += 1;
    }
    None
}

/// The last index where the text `p` stands, if there is one.
pub fn text_rposition(s: &[char], p: &str) -> (r: Option<usize>)
    ensures
        match r {
            Some(i) => i + p@.len() <= s.len() && i == rfind_text(s@, p@),
            None => rfind_text(s@, p@) == -1,
        },
{
    let want = chars_of(p);
    if want.len() > s.len() {
        return None;
    }
    let mut i: usize = s.len() - want.len();
    loop
        invariant
            want@ == p@,
            rfind_text(s@, p@) == rfind_text_below(s@, p@, i as int),
            i + p@.len() <= s@.len(),
        decreases i,
    {
        if text_at(s, &want, i) {
            return Some(i);
        }
        if i == 0 {
            assert(rfind_text_below(s@, p@, -1) == -1);
            return None;
        }
        i -= 1;
    }
}

// ---------------------------------------------------------------------------
// Splitting, trimming, joining
// ---------------------------------------------------------------------------

/// The pieces of `s` from index `start` on, cut at every `c`.
pub open spec fn split_from(s: Seq<char>, c: char, start: int) -> Seq<Seq<char>>
    decreases s.len() - start,
{
    let i = find_from(s, c, start);
    if i < start || i >= s.len() {
        seq![s.subrange(start, s.len() as int)]
    } else {
        seq![s.subrange(start, i)] + split_from(s, c, i + 1)
    }
}

/// The pieces of `s`, cut at every `c`. There is always at least one.
pub open spec fn split(s: Seq<char>, c: char) -> Seq<Seq<char>> {
    split_from(s, c, 0)
}

/// No piece holds the character that the text is split at.
pub proof fn lemma_split_from(s: Seq<char>, c: char, start: int)
    requires
        0 <= start <= s.len(),
    ensures
        forall|k: int|
            0 <= k < split_from(s, c, start).len() ==> !(#[trigger] split_from(
                s,
                c,
                start,
            )[k]).contains(c),
    decreases s.len() - start,
{
    lemma_find_from(s, c, start);
    let end = find_from(s, c, start);
    let first = s.subrange(start, end);
    assert(!first.contains(c)) by {
        assert forall|j: int| 0 <= j < first.len() implies first[j] != c by {
            assert(first[j] == s[start + j]);
        }
    }
    if end < s.len() {
        lemma_split_from(s, c, end + 1);
        let more = split_from(s, c, end + 1);
        assert forall|k: int| 0 <= k < split_from(s, c, start).len() implies !(
        #[trigger] split_from(s, c, start)[k]).contains(c) by {
            if k > 0 {
                assert(split_from(s, c, start)[k] == more[k - 1]);
            } else {
                assert(split_from(s, c, start)[0] == first);
            }
        }
    }
}

/// The pieces of a text, cut at every `c`.
pub fn pieces(s: &[char], c: char) -> (r: Vec<Vec<char>>)
    ensures
        char_views(r@) == split(s@, c),
        r@.len() >= 1,
{
    let mut out: Vec<Vec<char>> = Vec::new();
    let mut start: usize = 0;
    loop
        invariant
            start <= s@.len() == s.len(),
            split(s@, c) == char_views(out@) + split_from(s@, c, start as int),
        decreases s@.len() - start,
    {
        proof {
            lemma_find_from(s@, c, start as int);
        }
        let ghost before = out@;
        match position_from(s, c, start) {
            None => {
                out.push(slice_of(s, start, s.len()));
                assert(char_views(out@) =~= char_views(before) + split_from(s@, c, start as int));
                return out;
            },
            Some(i) => {
                out.push(slice_of(s, start, i));
                assert(char_views(out@) =~= char_views(before) + seq![
                    s@.subrange(start as int, i as int),
                ]);
                assert(split(s@, c) =~= char_views(out@) + split_from(s@, c, i + 1));
                start = i + 1;
            },
        }
    }
}

/// The first index at or after `i` that is not white space, or the length.
pub open spec fn skip_white(s: Seq<char>, i: int) -> int
    decreases s.len() - i,
{
    if i < s.len() && is_white(s[i]) {
        skip_white(s, i + 1)
    } else {
        i
    }
}

/// The least index such that everything from it up to `i` is white space.
pub open spec fn back_white(s: Seq<char>, i: int) -> int
    decreases i,
{
    if i > 0 && is_white(s[i - 1]) {
        back_white(s, i - 1)
    } else {
        i
    }
}

/// A text without the white space at its two ends.
pub open spec fn trim(s: Seq<char>) -> Seq<char> {
    let a = skip_white(s, 0);
    let b = back_white(s, s.len() as int);
    if a <= b {
        s.subrange(a, b)
    } else {
        Seq::empty()
    }
}

/// A text without the white space at its two ends.
pub fn trimmed(s: &[char]) -> (r: Vec<char>)
    ensures
        r@ == trim(s@),
{
    let mut a: usize = 0;
    while a < s.len() && white(s[a])
        invariant
            a <= s@.len() == s.len(),
            skip_white(s@, 0) == skip_white(s@, a as int),
        decreases s@.len() - a,
    {
        a += 1;
    }
    let mut b: usize = s.len();
    while b > 0 && white(s[b - 1])
        invariant
            b <= s@.len() == s.len(),
            back_white(s@, s@.len() as int) == back_white(s@, b as int),
        decreases b,
    {
        b -= 1;
    }
    if a <= b {
        slice_of(s, a, b)
    } else {
        Vec::new()
    }
}

/// A text without the characters `c` at its end.
pub open spec fn strip_end(s: Seq<char>, c: char) -> Seq<char>
    decreases s.len(),
{
    if s.len() > 0 && s.last() == c {
        strip_end(s.drop_last(), c)
    } else {
        s
    }
}

/// A text without the characters `c` at its beginning.
pub open spec fn strip_start(s: Seq<char>, c: char) -> Seq<char>
    decreases s.len(),
{
    if s.len() > 0 && s.first() == c {
        strip_start(s.drop_first(), c)
    } else {
        s
    }
}

/// A text without the characters `c` at its end.
pub fn stripped_end(s: &[char], c: char) -> (r: Vec<char>)
    ensures
        r@ == strip_end(s@, c),
{
    let mut n: usize = s.len();
    assert(s@.take(n as int) =~= s@);
    while n > 0 && s[n - 1] == c
        invariant
            n <= s@.len() == s.len(),
            strip_end(s@, c) == strip_end(s@.take(n as int), c),
        decreases n,
    {
        assert(s@.take(n as int).drop_last() =~= s@.take(n - 1));
        n -= 1;
    }
    slice_of(s, 0, n)
}

/// A text without the characters `c` at its beginning.
pub fn stripped_start(s: &[char], c: char) -> (r: Vec<char>)
    ensures
        r@ == strip_start(s@, c),
{
    let mut n: usize = 0;
    assert(s@.skip(0) =~= s@);
    while n < s.len() && s[n] == c
        invariant
            n <= s@.len() == s.len(),
            strip_start(s@, c) == strip_start(s@.skip(n as int), c),
        decreases s@.len() - n,
    {
        assert(s@.skip(n as int).drop_first() =~= s@.skip(n + 1));
        n += 1;
    }
    assert(s@.subrange(n as int, s@.len() as int) =~= s@.skip(n as int));
    slice_of(s, n, s.len())
}

/// The first index at or after `i` that holds one of the characters `set`, or the length.
pub open spec fn find_any_from(s: Seq<char>, set: Seq<char>, i: int) -> int
    decreases s.len() - i,
{
    if i >= s.len() {
        s.len() as int
    } else if set.contains(s[i]) {
        i
    } else {
        find_any_from(s, set, i + 1)
    }
}

/// The first index that holds one of the characters `set`, if there is one.
pub fn position_any(s: &[char], set: &str) -> (r: Option<usize>)
    ensures
        match r {
            Some(i) => i < s.len() && i == find_any_from(s@, set@, 0) && set@.contains(
                s@[i as int],
            ),
            None => find_any_from(s@, set@, 0) == s@.len(),
        },
{
    let want = chars_of(set);
    let mut i: usize = 0;
    while i < s.len()
        invariant
            want@ == set@,
            0 <= i <= s@.len() == s.len(),
            find_any_from(s@, set@, 0) == find_any_from(s@, set@, i as int),
        decreases s@.len() - i,
    {
        if contains_char(&want, s[i]) {
            return Some(i);
        }
        i += 1;
    }
    None
}

/// The pieces, with `sep` between each two neighbours.
pub open spec fn join(parts: Seq<Seq<char>>, sep: Seq<char>) -> Seq<char>
    decreases parts.len(),
{
    if parts.len() == 0 {
        Seq::empty()
    } else if parts.len() == 1 {
        parts[0]
    } else {
        join(parts.drop_last(), sep) + sep + parts.last()
    }
}

/// The strings, with `sep` between each two neighbours.
pub fn joined(parts: &Vec<String>, sep: &str) -> (r: String)
    ensures
        r@ == join(views(parts@), sep@),
{
    let mut out = String::new();
    for i in 0..parts.len()
        invariant
            out@ == join(views(parts@).take(i as int), sep@),
    {
        proof {
            let now = views(parts@).take(i + 1);
            assert(now.drop_last() =~= views(parts@).take(i as int));
            assert(now.last() == parts@[i as int]@);
        }
        if i > 0 {
            out.append(sep);
        }
        out.append(parts[i].as_str());
        assert(i == 0 ==> out@ =~= parts@[0]@);
    }
    assert(views(parts@).take(parts@.len() as int) =~= views(parts@));
    out
}

// ---------------------------------------------------------------------------
// ASCII case
// ---------------------------------------------------------------------------

/// The ASCII lower-case form of a text.
pub fn lowered(s: &[char]) -> (r: Vec<char>)
    ensures
        r@ == lower(s@),
{
    let mut out: Vec<char> = Vec::new();
    for i in 0..s.len()
        invariant
            out@ == lower(s@).take(i as int),
    {
        let c = s[i];
        if 'A' <= c && c <= 'Z' {
            out.push(((c as u8) + 32) as char);
        } else {
            out.push(c);
        }
        assert(out@ =~= lower(s@).take(i + 1));
    }
    assert(lower(s@).take(s@.len() as int) =~= lower(s@));
    out
}

/// The ASCII upper-case form of a text.
pub fn uppered(s: &[char]) -> (r: Vec<char>)
    ensures
        r@ == upper(s@),
{
    let mut out: Vec<char> = Vec::new();
    for i in 0..s.len()
        invariant
            out@ == upper(s@).take(i as int),
    {
        let c = s[i];
        if 'a' <= c && c <= 'z' {
            out.push(((c as u8) - 32) as char);
        } else {
            out.push(c);
        }
        assert(out@ =~= upper(s@).take(i + 1));
    }
    assert(upper(s@).take(s@.len() as int) =~= upper(s@));
    out
}

// ---------------------------------------------------------------------------
// Digits
// ---------------------------------------------------------------------------

/// The character of a decimal digit.
pub open spec fn digit_char(d: int) -> char {
    (48 + d) as char
}

/// A number in decimal.
pub open spec fn decimal(n: nat) -> Seq<char>
    decreases n,
{
    if n < 10 {
        seq![digit_char(n as int)]
    } else {
        decimal(n / 10).push(digit_char((n % 10) as int))
    }
}

/// A number in decimal.
pub fn decimal_of(n: u64) -> (r: String)
    ensures
        r@ == decimal(n as nat),
    decreases n,
{
    let mut out = if n < 10 {
        String::new()
    } else {
        decimal_of(n / 10)
    };
    let d: u8 = 48u8 + (n % 10) as u8;
    out.push(d as char);
    assert(out@ =~= decimal(n as nat));
    out
}

/// A number with a sign in decimal.
pub open spec fn signed_decimal(n: int) -> Seq<char> {
    if n < 0 {
        "-"@ + decimal((-n) as nat)
    } else {
        decimal(n as nat)
    }
}

/// A number with a sign in decimal.
pub fn signed_decimal_of(n: i64) -> (r: String)
    ensures
        r@ == signed_decimal(n as int),
{
    if n < 0 {
        let size: u64 = (-(n + 1)) as u64 + 1;
        cat2("-", decimal_of(size).as_str())
    } else {
        decimal_of(n as u64)
    }
}

/// Whether a text holds nothing but decimal digits.
pub open spec fn all_digits(s: Seq<char>) -> bool {
    forall|i: int| 0 <= i < s.len() ==> is_digit(#[trigger] s[i])
}

/// The number that a text of decimal digits writes.
pub open spec fn digits_value(s: Seq<char>) -> nat
    decreases s.len(),
{
    if s.len() == 0 {
        0
    } else {
        digits_value(s.drop_last()) * 10 + ((s.last() as u32 - 48) as nat)
    }
}

/// The number that a text writes in decimal, an optional plus sign before its digits, when it
/// is no larger than `max`.
pub open spec fn parse_number(s: Seq<char>, max: nat) -> Option<nat> {
    let digits = if s.len() > 0 && s[0] == '+' {
        s.skip(1)
    } else {
        s
    };
    if digits.len() > 0 && all_digits(digits) && digits_value(digits) <= max {
        Some(digits_value(digits))
    } else {
        None
    }
}

proof fn lemma_digits_value_grows(s: Seq<char>, i: int)
    requires
        0 <= i <= s.len(),
    ensures
        digits_value(s.take(i)) <= digits_value(s),
    decreases s.len() - i,
{
    if i < s.len() {
        lemma_digits_value_grows(s, i + 1);
        assert(s.take(i + 1).drop_last() =~= s.take(i));
    } else {
        assert(s.take(i) =~= s);
    }
}

/// The number that a text writes in decimal, when it fits 64 bits.
pub fn parsed_u64(s: &[char]) -> (r: Option<u64>)
    ensures
        match r {
            Some(n) => parse_number(s@, u64::MAX as nat) == Some(n as nat),
            None => parse_number(s@, u64::MAX as nat) is None,
        },
{
    let start: usize = if s.len() > 0 && s[0] == '+' {
        1
    } else {
        0
    };
    let ghost digits = s@.skip(start as int);
    assert(start == 0 ==> digits =~= s@);
    if start == s.len() {
        return None;
    }
    let mut value: u64 = 0;
    for i in start..s.len()
        invariant
            start <= i <= s@.len() == s.len(),
            start == 0 || start == 1,
            digits == s@.skip(start as int),
            forall|j: int| 0 <= j < i - start ==> is_digit(#[trigger] digits[j]),
            value == digits_value(digits.take(i - start)),
            parse_number(s@, u64::MAX as nat) == (if digits.len() > 0 && all_digits(digits)
                && digits_value(digits) <= u64::MAX {
                Some(digits_value(digits))
            } else {
                None
            }),
    {
        let c = s[i];
        let ghost k = i - start;
        assert(digits[k] == c);
        assert(digits.take(k + 1).drop_last() =~= digits.take(k));
        if !('0' <= c && c <= '9') {
            assert(!all_digits(digits));
            return None;
        }
        let d: u64 = (c as u32 - 48) as u64;
        proof {
            lemma_digits_value_grows(digits, k + 1);
            assert(digits_value(digits.take(k + 1)) == value * 10 + d);
        }
        if value > (u64::MAX - d) / 10 {
            return None;
        }
        value = value * 10 + d;
    }
    assert(digits.take(s@.len() - start) =~= digits);
    Some(value)
}

/// The number that a text writes in decimal, an optional sign before its digits, when it fits 64
/// bits with a sign.
pub open spec fn parse_signed(s: Seq<char>) -> Option<int> {
    if s.len() > 0 && s[0] == '-' {
        let digits = s.skip(1);
        if digits.len() > 0 && all_digits(digits) && digits_value(digits)
            <= 0x8000_0000_0000_0000 {
            Some(-(digits_value(digits) as int))
        } else {
            None
        }
    } else {
        match parse_number(s, 0x7fff_ffff_ffff_ffff) {
            Some(n) => Some(n as int),
            None => None,
        }
    }
}

/// The number that a text writes in decimal, with an optional sign.
pub fn parsed_i64(s: &[char]) -> (r: Option<i64>)
    ensures
        match r {
            Some(n) => parse_signed(s@) == Some(n as int),
            None => parse_signed(s@) is None,
        },
{
    if s.len() > 0 && s[0] == '-' {
        let digits = slice_of(s, 1, s.len());
        assert(digits@ =~= s@.skip(1));
        if digits.len() > 0 && digits[0] == '+' {
            assert(!is_digit(digits@[0]));
            return None;
        }
        match parsed_u64(&digits) {
            Some(n) => {
                if n < 0x8000_0000_0000_0000 {
                    Some(-(n as i64))
                } else if n == 0x8000_0000_0000_0000 {
                    Some(i64::MIN)
                } else {
                    None
                }
            },
            None => None,
        }
    } else {
        match parsed_u64(s) {
            Some(n) => {
                if n <= 0x7fff_ffff_ffff_ffff {
                    Some(n as i64)
                } else {
                    None
                }
            },
            None => None,
        }
    }
}

/// The character of a lower-case hexadecimal digit.
pub open spec fn hex_digit(d: int) -> char {
    if d < 10 {
        (48 + d) as char
    } else {
        (87 + d) as char
    }
}

/// Bytes in lower-case hexadecimal, two characters for each.
pub open spec fn hex(bytes: Seq<u8>) -> Seq<char> {
    Seq::new(
        2 * bytes.len(),
        |i: int| hex_digit(
            if i % 2 == 0 {
                bytes[i / 2] as int / 16
            } else {
                bytes[i / 2] as int % 16
            },
        ),
    )
}

fn hex_char(d: u8) -> (r: char)
    requires
        d < 16,
    ensures
        r == hex_digit(d as int),
{
    if d < 10 {
        (48 + d) as char
    } else {
        (87 + d) as char
    }
}

/// Bytes in lower-case hexadecimal, two characters for each.
pub fn hex_of(bytes: &[u8]) -> (r: String)
    ensures
        r@ == hex(bytes@),
{
    let mut out = String::new();
    for i in 0..bytes.len()
        invariant
            out@ == hex(bytes@).take(2 * i),
    {
        out.push(hex_char(bytes[i] / 16));
        out.push(hex_char(bytes[i] % 16));
        assert(out@ =~= hex(bytes@).take(2 * (i + 1)));
    }
    assert(hex(bytes@).take(2 * bytes@.len() as int) =~= hex(bytes@));
    out
}

// ---------------------------------------------------------------------------
// Order
// ---------------------------------------------------------------------------

/// Whether `a` comes before `b`, comparing from index `i` on.
pub open spec fn less_from(a: Seq<char>, b: Seq<char>, i: int) -> bool
    decreases b.len() - i,
{
    if i >= b.len() {
        false
    } else if i >= a.len() {
        true
    } else if a[i] != b[i] {
        a[i] < b[i]
    } else {
        less_from(a, b, i + 1)
    }
}

/// Whether `a` comes before `b` in the order of their code points, which for strings is the
/// order of their UTF-8 bytes.
pub open spec fn less(a: Seq<char>, b: Seq<char>) -> bool {
    less_from(a, b, 0)
}

/// Whether `a` comes before `b`.
pub fn is_less(a: &[char], b: &[char]) -> (r: bool)
    ensures
        r == less(a@, b@),
{
    let mut i: usize = 0;
    while i < b.len()
        invariant
            i <= b@.len() == b.len(),
            i <= a@.len() == a.len(),
            less(a@, b@) == less_from(a@, b@, i as int),
        decreases b@.len() - i,
    {
        if i >= a.len() {
            return true;
        }
        if a[i] != b[i] {
            return a[i] < b[i];
        }
        i += 1;
    }
    false
}

/// Whether the string `a` comes before the string `b`.
pub fn str_less(a: &str, b: &str) -> (r: bool)
    ensures
        r == less(a@, b@),
{
    is_less(&chars_of(a), &chars_of(b))
}

proof fn lemma_less_from_trans(a: Seq<char>, b: Seq<char>, c: Seq<char>, i: int)
    requires
        0 <= i,
        less_from(a, b, i),
        less_from(b, c, i),
    ensures
        less_from(a, c, i),
    decreases b.len() - i,
{
    if i < a.len() && i < b.len() && i < c.len() && a[i] == b[i] && b[i] == c[i] {
        lemma_less_from_trans(a, b, c, i + 1);
    }
}

proof fn lemma_less_from_total(a: Seq<char>, b: Seq<char>, i: int)
    requires
        0 <= i <= a.len(),
        i <= b.len(),
        forall|j: int| 0 <= j < i ==> a[j] == b[j],
    ensures
        less_from(a, b, i) || less_from(b, a, i) || a == b,
        !(less_from(a, b, i) && less_from(b, a, i)),
        a == b ==> !less_from(a, b, i),
    decreases b.len() - i,
{
    if i < a.len() && i < b.len() && a[i] == b[i] {
        lemma_less_from_total(a, b, i + 1);
    } else if i == a.len() && i == b.len() {
        assert(a =~= b);
    }
}

/// The order of texts is transitive.
pub proof fn lemma_less_trans(a: Seq<char>, b: Seq<char>, c: Seq<char>)
    requires
        less(a, b),
        less(b, c),
    ensures
        less(a, c),
{
    lemma_less_from_trans(a, b, c, 0);
}

/// Of two texts exactly one holds: the first comes before, it comes after, they are the same.
pub proof fn lemma_less_total(a: Seq<char>, b: Seq<char>)
    ensures
        less(a, b) || less(b, a) || a == b,
        !(less(a, b) && less(b, a)),
        a == b ==> !less(a, b),
{
    lemma_less_from_total(a, b, 0);
}

proof fn lemma_find_stops(s: Seq<char>, c: char, i: int, k: int)
    requires
        0 <= i <= k < s.len(),
        s[k] == c,
        forall|j: int| i <= j < k ==> s[j] != c,
    ensures
        find_from(s, c, i) == k,
{
    lemma_find_from(s, c, i);
}

/// A character is found where it stands first, and from behind where it stands last. Without it the
/// search ends behind the text, and from behind before it.
pub proof fn law_the_nearest_is_found(head: Seq<char>, c: char, tail: Seq<char>)
    ensures
        !head.contains(c) ==> find(head + seq![c] + tail, c) == head.len(),
        !head.contains(c) ==> find(head, c) == head.len(),
        !tail.contains(c) ==> rfind(head + seq![c] + tail, c) == head.len(),
        !head.contains(c) ==> rfind(head, c) == -1,
{
    let s = head + seq![c] + tail;
    let k = head.len() as int;
    assert(s[k] == c);
    if !head.contains(c) {
        assert forall|j: int| 0 <= j < k implies s[j] != c by {
            assert(s[j] == head[j]);
        }
        lemma_find_stops(s, c, 0, k);
        lemma_find_contains(head, c);
        lemma_rfind_below(head, c, head.len() as int);
        let r = rfind(head, c);
        if r >= 0 {
            assert(head[r] == c);
        }
    }
    if !tail.contains(c) {
        lemma_rfind_below(s, c, s.len() as int);
        let r = rfind(s, c);
        if r > k {
            assert(s[r] == tail[r - k - 1]);
        }
        assert(!(r < k));
    }
}

proof fn lemma_split_shifts(s: Seq<char>, c: char, head: int, start: int)
    requires
        0 <= head <= s.len(),
        0 <= start <= s.len() - head,
    ensures
        split_from(s, c, head + start) == split_from(s.skip(head), c, start),
    decreases s.len() - head - start,
{
    let t = s.skip(head);
    lemma_find_from(s, c, head + start);
    lemma_find_from(t, c, start);
    let a = find_from(s, c, head + start);
    let b = find_from(t, c, start);
    if a < s.len() {
        assert(t[a - head] == c);
        assert(!(b > a - head));
    }
    if b < t.len() {
        assert(s[b + head] == c);
        assert(!(a > b + head));
    }
    assert(a == b + head);
    if a < s.len() {
        lemma_split_shifts(s, c, head, b + 1);
        assert(s.subrange(head + start, a) =~= t.subrange(start, b));
    } else {
        assert(s.subrange(head + start, s.len() as int) =~= t.subrange(start, t.len() as int));
    }
}

/// A text is split at each separator: what comes before the first is the first piece, and what
/// follows it is split in its turn. A text without one is its only piece.
pub proof fn law_a_text_is_split_at_each_separator(head: Seq<char>, c: char, tail: Seq<char>)
    requires
        !head.contains(c),
    ensures
        split(head, c) == seq![head],
        split(head + seq![c] + tail, c) == seq![head] + split(tail, c),
{
    law_the_nearest_is_found(head, c, tail);
    assert(head.subrange(0, head.len() as int) =~= head);
    let s = head + seq![c] + tail;
    let k = head.len() as int;
    assert(s.subrange(0, k) =~= head);
    lemma_split_shifts(s, c, k + 1, 0);
    assert(s.skip(k + 1) =~= tail);
}

/// The pieces of a text, joined by the separator, are the text.
pub proof fn law_splitting_loses_nothing(s: Seq<char>, c: char)
    ensures
        join(split(s, c), seq![c]) == s,
        forall|k: int| 0 <= k < split(s, c).len() ==> !(#[trigger] split(s, c)[k]).contains(c),
    decreases s.len(),
{
    lemma_split_from(s, c, 0);
    lemma_find_from(s, c, 0);
    let k = find(s, c);
    let head = s.take(k);
    if head.contains(c) {
        let j = head.index_of(c);
        assert(s[j] == c);
    }
    if k < s.len() {
        let tail = s.skip(k + 1);
        assert(s =~= head + seq![c] + tail);
        law_a_text_is_split_at_each_separator(head, c, tail);
        law_splitting_loses_nothing(tail, c);
        lemma_join_first(head, split(tail, c), seq![c]);
    } else {
        assert(s =~= head);
        law_a_text_is_split_at_each_separator(head, c, Seq::empty());
    }
}

proof fn lemma_join_first(first: Seq<char>, rest: Seq<Seq<char>>, sep: Seq<char>)
    requires
        rest.len() > 0,
    ensures
        join(seq![first] + rest, sep) == first + sep + join(rest, sep),
    decreases rest.len(),
{
    let all = seq![first] + rest;
    if rest.len() == 1 {
        assert(all.drop_last() =~= seq![first]);
        assert(join(seq![first], sep) == first);
        assert(all.last() == rest[0]);
    } else {
        assert(all.drop_last() =~= seq![first] + rest.drop_last());
        lemma_join_first(first, rest.drop_last(), sep);
        assert(all.last() == rest.last());
        assert(join(all, sep) =~= first + sep + join(rest, sep));
    }
}

proof fn lemma_decimal(n: nat)
    ensures
        decimal(n).len() > 0,
        all_digits(decimal(n)),
        digits_value(decimal(n)) == n,
    decreases n,
{
    if n < 10 {
        let d = decimal(n);
        assert(d.drop_last() =~= Seq::<char>::empty());
        assert(digits_value(d.drop_last()) == 0);
        assert(d.last() as u32 == 48 + n);
    } else {
        lemma_decimal(n / 10);
        let d = decimal(n);
        assert(d.drop_last() =~= decimal(n / 10));
        assert(d.last() as u32 == 48 + n % 10);
        assert forall|i: int| 0 <= i < d.len() implies is_digit(#[trigger] d[i]) by {
            if i < d.len() - 1 {
                assert(d[i] == decimal(n / 10)[i]);
            }
        }
    }
}

/// A number that is written in decimal is read back as it was, and one that is over the limit is
/// not.
pub proof fn law_a_number_is_read_back(n: nat, max: nat)
    ensures
        n <= max ==> parse_number(decimal(n), max) == Some(n),
        n <= max ==> parse_number("+"@ + decimal(n), max) == Some(n),
        n > max ==> parse_number(decimal(n), max) is None,
        parse_number(Seq::empty(), max) is None,
{
    reveal_strlit("+");
    lemma_decimal(n);
    assert(is_digit(decimal(n)[0]));
    assert(("+"@ + decimal(n)).skip(1) =~= decimal(n));
}

/// A signed number that is written in decimal is read back as it was.
pub proof fn law_a_signed_number_is_read_back(n: int)
    requires
        i64::MIN <= n <= i64::MAX,
    ensures
        parse_signed(signed_decimal(n)) == Some(n),
{
    reveal_strlit("-");
    if n < 0 {
        lemma_decimal((-n) as nat);
        assert(("-"@ + decimal((-n) as nat)).skip(1) =~= decimal((-n) as nat));
    } else {
        lemma_decimal(n as nat);
        assert(is_digit(decimal(n as nat)[0]));
    }
}

/// What is no digit makes a text no number, wherever in it it stands but for a sign in front.
pub proof fn law_only_digits_make_a_number(s: Seq<char>, max: nat, i: int)
    requires
        0 <= i < s.len(),
        !('0' <= s[i] <= '9'),
        i > 0 || s[0] != '+',
    ensures
        parse_number(s, max) is None,
        i > 0 || s[0] != '-' ==> parse_signed(s) is None,
{
    let digits = s.skip(1);
    if i > 0 {
        assert(digits[i - 1] == s[i]);
        assert(!is_digit(digits[i - 1]));
    }
    assert(!is_digit(s[i]));
}

/// Each byte is written as its two digits of sixteen, the higher first.
pub proof fn law_bytes_are_written_in_hex(bytes: Seq<u8>, i: int)
    requires
        0 <= i < bytes.len(),
    ensures
        hex(bytes).len() == 2 * bytes.len(),
        hex(bytes)[2 * i] == "0123456789abcdef"@[bytes[i] as int / 16],
        hex(bytes)[2 * i + 1] == "0123456789abcdef"@[bytes[i] as int % 16],
{
    reveal_strlit("0123456789abcdef");
    assert((2 * i) / 2 == i && (2 * i + 1) / 2 == i);
}

/// Of two texts the one comes first that has the smaller character where they first differ, or that
/// the other goes on from.
pub proof fn law_texts_are_ordered_by_their_first_difference(
    common: Seq<char>,
    a: char,
    b: char,
    x: Seq<char>,
    y: Seq<char>,
)
    ensures
        a < b ==> less(common + seq![a] + x, common + seq![b] + y),
        less(common, common + seq![b] + y),
{
    lemma_less_skips(common, seq![a] + x, seq![b] + y, 0);
    lemma_less_skips(common, Seq::empty(), seq![b] + y, 0);
    assert(common + seq![a] + x =~= common + (seq![a] + x));
    assert(common + seq![b] + y =~= common + (seq![b] + y));
    assert(common =~= common + Seq::<char>::empty());
}

proof fn lemma_less_skips(common: Seq<char>, x: Seq<char>, y: Seq<char>, i: int)
    requires
        0 <= i <= common.len(),
    ensures
        less_from(common + x, common + y, i) == less_from(
            common + x,
            common + y,
            common.len() as int,
        ),
    decreases common.len() - i,
{
    if i < common.len() {
        lemma_less_skips(common, x, y, i + 1);
    }
}

/// What is cut from the end of a text is all there is of the character, and nothing else.
pub proof fn law_only_the_character_is_stripped(s: Seq<char>, c: char)
    ensures
        strip_end(s, c).len() <= s.len(),
        strip_end(s, c) == s.take(strip_end(s, c).len() as int),
        strip_end(s, c).len() > 0 ==> strip_end(s, c).last() != c,
        forall|i: int| strip_end(s, c).len() <= i < s.len() ==> #[trigger] s[i] == c,
        strip_start(s, c).len() <= s.len(),
        strip_start(s, c) == s.skip(s.len() - strip_start(s, c).len()),
        strip_start(s, c).len() > 0 ==> strip_start(s, c)[0] != c,
        forall|i: int| 0 <= i < s.len() - strip_start(s, c).len() ==> #[trigger] s[i] == c,
    decreases s.len(),
{
    if s.len() > 0 {
        law_only_the_character_is_stripped(s.drop_last(), c);
        law_only_the_character_is_stripped(s.drop_first(), c);
        if s.last() == c {
            let cut = strip_end(s, c);
            assert(cut =~= s.take(cut.len() as int));
            assert forall|i: int| cut.len() <= i < s.len() implies #[trigger] s[i] == c by {
                if i < s.len() - 1 {
                    assert(s[i] == s.drop_last()[i]);
                }
            }
        } else {
            assert(s.take(s.len() as int) =~= s);
        }
        if s.first() == c {
            let cut = strip_start(s, c);
            assert(cut =~= s.skip(s.len() - cut.len()));
            assert forall|i: int| 0 <= i < s.len() - cut.len() implies #[trigger] s[i] == c by {
                if i > 0 {
                    assert(s[i] == s.drop_first()[i - 1]);
                }
            }
        } else {
            assert(s.skip(0) =~= s);
        }
    } else {
        assert(s.take(0) =~= s);
        assert(s.skip(0) =~= s);
    }
}

/// Letters of the one case become those of the other, and every other character stays.
pub proof fn law_case_is_changed_letter_by_letter(s: Seq<char>, i: int)
    requires
        0 <= i < s.len(),
    ensures
        lower(s).len() == s.len(),
        upper(s).len() == s.len(),
        lower(s)[i] as int == (if 'A' <= s[i] <= 'Z' {
            s[i] as int + 32
        } else {
            s[i] as int
        }),
        upper(s)[i] as int == (if 'a' <= s[i] <= 'z' {
            s[i] as int - 32
        } else {
            s[i] as int
        }),
{
}

proof fn lemma_skip_white(s: Seq<char>, i: int, k: int)
    requires
        0 <= i <= k <= s.len(),
        forall|j: int| i <= j < k ==> is_white(#[trigger] s[j]),
        k < s.len() ==> !is_white(s[k]),
    ensures
        skip_white(s, i) == k,
    decreases k - i,
{
    if i < k {
        lemma_skip_white(s, i + 1, k);
    }
}

proof fn lemma_back_white(s: Seq<char>, i: int, k: int)
    requires
        0 <= k <= i <= s.len(),
        forall|j: int| k <= j < i ==> is_white(#[trigger] s[j]),
        k > 0 ==> !is_white(s[k - 1]),
    ensures
        back_white(s, i) == k,
    decreases i - k,
{
    if i > k {
        lemma_back_white(s, i - 1, k);
    }
}

/// White space around a text is cut off and what stands between its ends is kept, white space
/// included.
pub proof fn law_white_space_around_a_text_is_cut(
    before: Seq<char>,
    text: Seq<char>,
    after: Seq<char>,
)
    requires
        forall|i: int| 0 <= i < before.len() ==> is_white(#[trigger] before[i]),
        forall|i: int| 0 <= i < after.len() ==> is_white(#[trigger] after[i]),
        text.len() > 0 ==> !is_white(text[0]) && !is_white(text.last()),
    ensures
        trim(before + text + after) == text,
{
    let s = before + text + after;
    let a = before.len() as int;
    let b = a + text.len();
    assert forall|j: int| 0 <= j < a implies is_white(#[trigger] s[j]) by {
        assert(s[j] == before[j]);
    }
    assert forall|j: int| b <= j < s.len() implies is_white(#[trigger] s[j]) by {
        assert(s[j] == after[j - b]);
    }
    if text.len() > 0 {
        assert(s[a] == text[0]);
        assert(s[b - 1] == text.last());
        lemma_skip_white(s, 0, a);
        lemma_back_white(s, s.len() as int, b);
        assert(s.subrange(a, b) =~= text);
    } else {
        lemma_skip_white(s, 0, s.len() as int);
        lemma_back_white(s, s.len() as int, 0);
        if s.len() == 0 {
            assert(s.subrange(0, 0) =~= text);
        }
        assert(trim(s) =~= text);
    }
}

proof fn lemma_find_text_from(s: Seq<char>, p: Seq<char>, i: int, k: int)
    requires
        0 <= i <= k,
        stands_at(s, p, k),
    ensures
        i <= find_text_from(s, p, i) <= k,
        stands_at(s, p, find_text_from(s, p, i)),
    decreases k - i,
{
    if !stands_at(s, p, i) {
        lemma_find_text_from(s, p, i + 1, k);
    }
}

proof fn lemma_find_text_none(s: Seq<char>, p: Seq<char>, i: int)
    requires
        0 <= i,
        forall|k: int| i <= k ==> !stands_at(s, p, k),
    ensures
        find_text_from(s, p, i) == -1,
    decreases s.len() + 1 - i,
{
    if i + p.len() <= s.len() {
        lemma_find_text_none(s, p, i + 1);
    }
}

proof fn lemma_rfind_text(s: Seq<char>, p: Seq<char>, i: int, k: int)
    requires
        0 <= k <= i,
        stands_at(s, p, k),
    ensures
        k <= rfind_text_below(s, p, i) <= i,
        stands_at(s, p, rfind_text_below(s, p, i)),
    decreases i - k,
{
    if !stands_at(s, p, i) {
        lemma_rfind_text(s, p, i - 1, k);
    }
}

proof fn lemma_rfind_text_none(s: Seq<char>, p: Seq<char>, i: int)
    requires
        forall|k: int| !stands_at(s, p, k),
    ensures
        rfind_text_below(s, p, i) == -1,
    decreases i + 1,
{
    if i >= 0 {
        lemma_rfind_text_none(s, p, i - 1);
    }
}

/// Where a text stands in another, it is found at its first place and, from behind, at its last.
pub proof fn law_the_nearest_text_is_found(s: Seq<char>, p: Seq<char>, k: int)
    ensures
        stands_at(s, p, k) ==> {
            &&& 0 <= find_text(s, p) <= k <= rfind_text(s, p)
            &&& stands_at(s, p, find_text(s, p))
            &&& stands_at(s, p, rfind_text(s, p))
        },
        (forall|j: int| !stands_at(s, p, j)) ==> find_text(s, p) == -1 && rfind_text(s, p) == -1,
{
    if stands_at(s, p, k) {
        lemma_find_text_from(s, p, 0, k);
        lemma_rfind_text(s, p, s.len() - p.len(), k);
    }
    if forall|j: int| !stands_at(s, p, j) {
        lemma_find_text_none(s, p, 0);
        lemma_rfind_text_none(s, p, s.len() - p.len());
    }
}

/// The first character of a set is found, and behind the text where it has none of them.
pub proof fn law_the_first_of_a_set_is_found(s: Seq<char>, set: Seq<char>, i: int)
    requires
        0 <= i <= s.len(),
    ensures
        i <= find_any_from(s, set, i) <= s.len(),
        find_any_from(s, set, i) < s.len() ==> set.contains(s[find_any_from(s, set, i)]),
        forall|j: int| i <= j < find_any_from(s, set, i) ==> !set.contains(#[trigger] s[j]),
    decreases s.len() - i,
{
    if i < s.len() && !set.contains(s[i]) {
        law_the_first_of_a_set_is_found(s, set, i + 1);
    }
}

/// Two texts with a separator between them have the pieces of the one and then those of the other.
pub proof fn law_pieces_add_up(a: Seq<char>, c: char, b: Seq<char>)
    ensures
        split(a + seq![c] + b, c) == split(a, c) + split(b, c),
    decreases a.len(),
{
    lemma_find_from(a, c, 0);
    let k = find(a, c);
    let head = a.take(k);
    if head.contains(c) {
        let j = head.index_of(c);
        assert(a[j] == c);
    }
    if k < a.len() {
        let rest = a.skip(k + 1);
        assert(a =~= head + seq![c] + rest);
        assert(a + seq![c] + b =~= head + seq![c] + (rest + seq![c] + b));
        law_a_text_is_split_at_each_separator(head, c, rest);
        law_a_text_is_split_at_each_separator(head, c, rest + seq![c] + b);
        law_pieces_add_up(rest, c, b);
    } else {
        assert(head =~= a);
        law_a_text_is_split_at_each_separator(head, c, b);
    }
}

/// Of the characters of ASCII the space and those from the tab to the carriage return are white,
/// and the letters and the digits are what they are everywhere.
pub proof fn law_what_is_white_and_what_is_not(c: char)
    ensures
        (c as int) < 128 ==> (is_white(c) <==> c == ' ' || 9 <= c as int <= 13),
        is_digit(c) <==> 48 <= c as int <= 57,
        is_alnum(c) <==> is_digit(c) || 65 <= c as int <= 90 || 97 <= c as int <= 122,
        is_alnum(c) ==> !is_white(c),
{
}

} // verus!
