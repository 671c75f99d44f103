//! Text operations on sequences of characters.
use vstd::prelude::*;
use vstd::string::*;

verus! {

// ---------------------------------------------------------------------------
// Standard library functions without a specification of their own
// ---------------------------------------------------------------------------

/// `String::push` appends one character.
pub assume_specification[ String::push ](s: &mut String, c: char)
    ensures
        final(s)@ == old(s)@.push(c),
;

/// Calls `==` of `str`: two string slices are equal when they hold the same characters.
#[verifier::external_body]
pub(crate) fn same(a: &str, b: &str) -> (r: bool)
    ensures
        r == (a@ == b@),
{
    a == b
}

// ---------------------------------------------------------------------------
// Conversions
// ---------------------------------------------------------------------------

/// The characters of a string slice.
pub fn chars_of(s: &str) -> (r: Vec<char>)
    ensures
        r@ == s@,
{
    let mut r: Vec<char> = Vec::new();
    for c in it: s.chars()
        invariant
            r@ == it.seq().take(it.index() as int),
            it.seq() == s@,
    {
        r.push(c);
        assert(it.seq().take(it.index() + 1) == it.seq().take(it.index() as int).push(c));
    }
    assert(s@.take(s@.len() as int) == s@);
    r
}

/// The text of the characters from `from` up to `to`.
pub fn text_of(chars: &Vec<char>, from: usize, to: usize) -> (r: String)
    requires
        from <= to <= chars@.len(),
    ensures
        r@ == chars@.subrange(from as int, to as int),
{
    let mut r: String = String::new();
    let mut i: usize = from;
    while i < to
        invariant
            from <= i <= to <= chars@.len(),
            r@ == chars@.subrange(from as int, i as int),
        decreases to - i,
    {
        r.push(chars[i]);
        assert(chars@.subrange(from as int, i + 1) == chars@.subrange(from as int, i as int).push(
            chars@[i as int],
        ));
        i += 1;
    }
    r
}

/// Appends a string slice.
pub fn append(s: &mut String, tail: &str)
    ensures
        final(s)@ == old(s)@ + tail@,
{
    s.append(tail);
}

/// The views of a sequence of strings.
pub open spec fn texts(v: Seq<String>) -> Seq<Seq<char>> {
    Seq::new(v.len(), |i: int| v[i]@)
}

/// Tells whether a text stands in a list.
pub fn lists(all: &Vec<String>, one: &str) -> (r: bool)
    ensures
        r == texts(all@).contains(one@),
{
    let mut i: usize = 0;
    while i < all.len()
        invariant
            i <= all@.len(),
            forall|j: int| 0 <= j < i ==> texts(all@)[j] != one@,
        decreases all@.len() - i,
    {
        assert(texts(all@)[i as int] == all@[i as int]@);
        if same(all[i].as_str(), one) {
            return true;
        }
        i = i + 1;
    }
    false
}

/// Copies a list of texts.
pub fn copy_texts(v: &Vec<String>) -> (r: Vec<String>)
    ensures
        texts(r@) == texts(v@),
{
    let mut r: Vec<String> = Vec::new();
    let mut i: usize = 0;
    while i < v.len()
        invariant
            i <= v@.len(),
            r@.len() == i,
            forall|k: int| 0 <= k < i ==> (#[trigger] r@[k])@ == v@[k]@,
        decreases v@.len() - i,
    {
        r.push(v[i].clone());
        i += 1;
    }
    assert(texts(r@) == texts(v@));
    r
}

/// Copies an optional text.
pub fn copy_optional(s: &Option<String>) -> (r: Option<String>)
    ensures
        r == *s,
{
    match s {
        Some(t) => Some(t.clone()),
        None => None,
    }
}

/// The number of bytes of the UTF-8 encoding.
pub fn utf8_len(s: &str) -> (r: usize)
    ensures
        r == vstd::utf8::encode_utf8(s@).len(),
{
    s.as_bytes().len()
}

/// The message that says where bytes cease to be UTF-8.
pub uninterp spec fn utf8_fault(bytes: Seq<u8>) -> Seq<char>;

/// Calls `std::str::from_utf8`: `Ok` for valid UTF-8, with the characters that it encodes. The
/// message of the error depends on the bytes alone.
#[verifier::external_body]
pub(crate) fn utf8(bytes: &[u8]) -> (r: Result<String, String>)
    ensures
        r is Ok <==> vstd::utf8::valid_utf8(bytes@),
        match r {
            Ok(s) => s@ == vstd::utf8::decode_utf8(bytes@),
            Err(message) => message@ == utf8_fault(bytes@),
        },
{
    std::str::from_utf8(bytes).map(str::to_owned).map_err(|e| e.to_string())
}

/// The lower-case form of a text, as the Unicode tables of the standard library give it.
pub uninterp spec fn lowercase(s: Seq<char>) -> Seq<char>;

/// Calls `str::to_lowercase`, whose result is a function of the text alone.
#[verifier::external_body]
pub(crate) fn lowercase_of(s: &str) -> (r: String)
    ensures
        r@ == lowercase(s@),
{
    s.to_lowercase()
}

// ---------------------------------------------------------------------------
// White space
// ---------------------------------------------------------------------------

/// The characters with the Unicode property `White_Space`.
pub open spec fn is_white(c: char) -> bool {
    let n = c as u32;
    ||| 0x9 <= n <= 0xd
    ||| n == 0x20
    ||| n == 0x85
    ||| n == 0xa0
    ||| n == 0x1680
    ||| 0x2000 <= n <= 0x200a
    ||| n == 0x2028
    ||| n == 0x2029
    ||| n == 0x202f
    ||| n == 0x205f
    ||| n == 0x3000
}

/// Whether a character is white space.
pub fn white(c: char) -> (r: bool)
    ensures
        r == is_white(c),
{
    let n: u32 = c as u32;
    (0x9 <= n && n <= 0xd) || n == 0x20 || n == 0x85 || n == 0xa0 || n == 0x1680 || (0x2000 <= n
        && n <= 0x200a) || n == 0x2028 || n == 0x2029 || n == 0x202f || n == 0x205f || n == 0x3000
}

/// The text without its leading white space.
pub open spec fn trim_start(s: Seq<char>) -> Seq<char>
    decreases s.len(),
{
    if s.len() > 0 && is_white(s[0]) {
        trim_start(s.drop_first())
    } else {
        s
    }
}

/// The text without its trailing white space.
pub open spec fn trim_end(s: Seq<char>) -> Seq<char>
    decreases s.len(),
{
    if s.len() > 0 && is_white(s.last()) {
        trim_end(s.drop_last())
    } else {
        s
    }
}

/// The text without white space at either end.
pub open spec fn trim(s: Seq<char>) -> Seq<char> {
    trim_end(trim_start(s))
}

/// Removes leading and trailing white space.
pub fn trimmed(s: &str) -> (r: String)
    ensures
        r@ == trim(s@),
{
    let v = chars_of(s);
    let mut a: usize = 0;
    assert(v@.subrange(0, v@.len() as int) == v@);
    while a < v.len() && white(v[a])
        invariant
            a <= v@.len(),
            trim_start(v@) == trim_start(v@.subrange(a as int, v@.len() as int)),
        decreases v@.len() - a,
    {
        let ghost t = v@.subrange(a as int, v@.len() as int);
        assert(t.drop_first() == v@.subrange(a + 1, v@.len() as int));
        a += 1;
    }
    assert(trim_start(v@) == v@.subrange(a as int, v@.len() as int));
    let b = trim_end_at(&v, a);
    text_of(&v, a, b)
}

/// Removes trailing white space.
pub fn trimmed_end(s: &str) -> (r: String)
    ensures
        r@ == trim_end(s@),
{
    let v = chars_of(s);
    assert(v@.subrange(0, v@.len() as int) == v@);
    let b = trim_end_at(&v, 0);
    text_of(&v, 0, b)
}

/// Where the text that starts at `from` ends once its trailing white space is gone.
fn trim_end_at(v: &Vec<char>, from: usize) -> (b: usize)
    requires
        from <= v@.len(),
    ensures
        from <= b <= v@.len(),
        v@.subrange(from as int, b as int) == trim_end(v@.subrange(from as int, v@.len() as int)),
{
    let mut b: usize = v.len();
    while b > from && white(v[b - 1])
        invariant
            from <= b <= v@.len(),
            trim_end(v@.subrange(from as int, v@.len() as int)) == trim_end(
                v@.subrange(from as int, b as int),
            ),
        decreases b,
    {
        let ghost t = v@.subrange(from as int, b as int);
        assert(t.drop_last() == v@.subrange(from as int, b - 1));
        assert(t.last() == v@[b - 1]);
        b -= 1;
    }
    proof {
        let t = v@.subrange(from as int, b as int);
        if t.len() > 0 {
            assert(t.last() == v@[b - 1]);
        }
    }
    b
}

// ---------------------------------------------------------------------------
// Splitting
// ---------------------------------------------------------------------------

/// The parts of a text between the occurrences of a character.
pub open spec fn split_on(s: Seq<char>, c: char) -> Seq<Seq<char>>
    decreases s.len(),
{
    if s.len() == 0 {
        seq![Seq::<char>::empty()]
    } else {
        let parts = split_on(s.drop_last(), c);
        if s.last() == c {
            parts.push(Seq::<char>::empty())
        } else {
            parts.drop_last().push(parts.last().push(s.last()))
        }
    }
}

/// Splitting gives at least one part.
pub proof fn lemma_split_on_nonempty(s: Seq<char>, c: char)
    ensures
        split_on(s, c).len() >= 1,
    decreases s.len(),
{
    if s.len() > 0 {
        lemma_split_on_nonempty(s.drop_last(), c);
    }
}

/// Splits a text at every occurrence of a character.
pub fn split(s: &str, c: char) -> (r: Vec<String>)
    ensures
        texts(r@) == split_on(s@, c),
        r@.len() >= 1,
{
    let v = chars_of(s);
    let mut done: Vec<String> = Vec::new();
    let mut current = String::new();
    let mut i: usize = 0;
    assert(texts(done@).push(current@) == split_on(v@.take(0), c));
    while i < v.len()
        invariant
            i <= v@.len(),
            texts(done@).push(current@) == split_on(v@.take(i as int), c),
        decreases v@.len() - i,
    {
        let ghost before = texts(done@).push(current@);
        let ghost t = v@.take(i + 1);
        assert(t.drop_last() == v@.take(i as int));
        assert(before.drop_last() == texts(done@));
        if v[i] == c {
            let ghost d = done@;
            done.push(current);
            assert(texts(done@) == texts(d).push(before.last()));
            current = String::new();
        } else {
            current.push(v[i]);
        }
        i += 1;
    }
    assert(v@.take(v@.len() as int) == v@);
    let ghost d = done@;
    let ghost last = current@;
    done.push(current);
    assert(texts(done@) == texts(d).push(last));
    done
}

/// The finished words of a text and the word that it ends in.
pub open spec fn word_scan(s: Seq<char>) -> (Seq<Seq<char>>, Seq<char>)
    decreases s.len(),
{
    if s.len() == 0 {
        (Seq::<Seq<char>>::empty(), Seq::<char>::empty())
    } else {
        let (done, current) = word_scan(s.drop_last());
        if !is_white(s.last()) {
            (done, current.push(s.last()))
        } else if current.len() > 0 {
            (done.push(current), Seq::<char>::empty())
        } else {
            (done, current)
        }
    }
}

/// The longest parts of a text without white space.
pub open spec fn words(s: Seq<char>) -> Seq<Seq<char>> {
    let (done, current) = word_scan(s);
    if current.len() > 0 {
        done.push(current)
    } else {
        done
    }
}

/// Splits a text at white space.
pub fn split_words(s: &str) -> (r: Vec<String>)
    ensures
        texts(r@) == words(s@),
{
    let v = chars_of(s);
    let mut done: Vec<String> = Vec::new();
    let mut current = String::new();
    let mut i: usize = 0;
    assert(texts(done@) == word_scan(v@.take(0)).0);
    while i < v.len()
        invariant
            i <= v@.len(),
            (texts(done@), current@) == word_scan(v@.take(i as int)),
        decreases v@.len() - i,
    {
        let ghost t = v@.take(i + 1);
        assert(t.drop_last() == v@.take(i as int));
        if !white(v[i]) {
            current.push(v[i]);
        } else if !current.as_str().is_empty() {
            let ghost d = done@;
            let ghost word = current@;
            done.push(current);
            assert(texts(done@) == texts(d).push(word));
            current = String::new();
        }
        i += 1;
    }
    assert(v@.take(v@.len() as int) == v@);
    if !current.as_str().is_empty() {
        let ghost d = done@;
        let ghost word = current@;
        done.push(current);
        assert(texts(done@) == texts(d).push(word));
    }
    done
}

/// A line without the carriage return before its line feed.
pub open spec fn without_return(s: Seq<char>) -> Seq<char> {
    if s.len() > 0 && s.last() == '\r' {
        s.drop_last()
    } else {
        s
    }
}

/// The ended lines of a text and what follows the last line feed.
pub open spec fn line_scan(s: Seq<char>) -> (Seq<Seq<char>>, Seq<char>)
    decreases s.len(),
{
    if s.len() == 0 {
        (Seq::<Seq<char>>::empty(), Seq::<char>::empty())
    } else {
        let (done, current) = line_scan(s.drop_last());
        if s.last() == '\n' {
            (done.push(without_return(current)), Seq::<char>::empty())
        } else {
            (done, current.push(s.last()))
        }
    }
}

/// The lines of a text: each ends at a line feed, or at a carriage return and a line feed, and
/// the last line feed may be missing.
pub open spec fn lines(s: Seq<char>) -> Seq<Seq<char>> {
    let (done, current) = line_scan(s);
    if current.len() > 0 {
        done.push(current)
    } else {
        done
    }
}

/// Splits a text into its lines.
pub fn split_lines(s: &str) -> (r: Vec<String>)
    ensures
        texts(r@) == lines(s@),
{
    let v = chars_of(s);
    let mut done: Vec<String> = Vec::new();
    let mut start: usize = 0;
    let mut i: usize = 0;
    assert(texts(done@) == line_scan(v@.take(0)).0);
    assert(v@.subrange(0, 0) == line_scan(v@.take(0)).1);
    while i < v.len()
        invariant
            start <= i <= v@.len(),
            (texts(done@), v@.subrange(start as int, i as int)) == line_scan(v@.take(i as int)),
        decreases v@.len() - i,
    {
        let ghost t = v@.take(i + 1);
        let ghost current = v@.subrange(start as int, i as int);
        assert(t.drop_last() == v@.take(i as int));
        if v[i] == '\n' {
            let end: usize = if i > start && v[i - 1] == '\r' {
                i - 1
            } else {
                i
            };
            proof {
                if i > start {
                    assert(current.last() == v@[i - 1]);
                }
                assert(v@.subrange(start as int, end as int) == without_return(current));
            }
            let line = text_of(&v, start, end);
            let ghost d = done@;
            let ghost word = line@;
            done.push(line);
            assert(texts(done@) == texts(d).push(word));
            start = i + 1;
            assert(v@.subrange(start as int, i + 1) == Seq::<char>::empty());
        } else {
            assert(v@.subrange(start as int, i + 1) == current.push(v@[i as int]));
        }
        i += 1;
    }
    assert(v@.take(v@.len() as int) == v@);
    if start < v.len() {
        let line = text_of(&v, start, v.len());
        let ghost d = done@;
        let ghost word = line@;
        done.push(line);
        assert(texts(done@) == texts(d).push(word));
    }
    done
}

/// The place of the first occurrence of a character, or the length of the text.
pub open spec fn first_index(s: Seq<char>, c: char) -> int
    decreases s.len(),
{
    if s.len() == 0 || s[0] == c {
        0
    } else {
        1 + first_index(s.drop_first(), c)
    }
}

/// The first index of a character is where it stands with none before it.
pub proof fn lemma_first_index(s: Seq<char>, c: char, i: int)
    requires
        0 <= i <= s.len(),
        forall|j: int| 0 <= j < i ==> s[j] != c,
        i < s.len() ==> s[i] == c,
    ensures
        first_index(s, c) == i,
    decreases s.len(),
{
    if i > 0 {
        assert(s[0] != c);
        assert forall|j: int| 0 <= j < i - 1 implies s.drop_first()[j] != c by {
            assert(s[j + 1] != c);
        }
        lemma_first_index(s.drop_first(), c, i - 1);
    }
}

/// What stands before and after the first occurrence of a character.
pub open spec fn halves(s: Seq<char>, c: char) -> Option<(Seq<char>, Seq<char>)> {
    let i = first_index(s, c);
    if i < s.len() {
        Some((s.take(i), s.skip(i + 1)))
    } else {
        None
    }
}

/// Splits a text at the first occurrence of a character.
pub fn split_once(s: &str, c: char) -> (r: Option<(String, String)>)
    ensures
        match r {
            Some((a, b)) => halves(s@, c) == Some((a@, b@)),
            None => halves(s@, c) is None,
        },
{
    let v = chars_of(s);
    let mut i: usize = 0;
    while i < v.len() && v[i] != c
        invariant
            i <= v@.len(),
            forall|j: int| 0 <= j < i ==> v@[j] != c,
        decreases v@.len() - i,
    {
        i += 1;
    }
    proof {
        lemma_first_index(v@, c, i as int);
    }
    if i < v.len() {
        let a = text_of(&v, 0, i);
        let b = text_of(&v, i + 1, v.len());
        assert(v@.subrange(0, i as int) == v@.take(i as int));
        assert(v@.subrange(i + 1, v@.len() as int) == v@.skip(i + 1));
        Some((a, b))
    } else {
        None
    }
}


// ---------------------------------------------------------------------------
// Prefixes, suffixes and parts
// ---------------------------------------------------------------------------

/// Whether a text begins with another.
pub fn starts_with(s: &str, prefix: &str) -> (r: bool)
    ensures
        r == prefix@.is_prefix_of(s@),
{
    let v = chars_of(s);
    let p = chars_of(prefix);
    if p.len() > v.len() {
        return false;
    }
    let head = text_of(&v, 0, p.len());
    same(head.as_str(), prefix)
}

/// What follows a prefix, where the text has it.
pub open spec fn after(s: Seq<char>, prefix: Seq<char>) -> Option<Seq<char>> {
    if prefix.is_prefix_of(s) {
        Some(s.skip(prefix.len() as int))
    } else {
        None
    }
}

/// Removes a prefix.
pub fn strip_prefix(s: &str, prefix: &str) -> (r: Option<String>)
    ensures
        match r {
            Some(t) => after(s@, prefix@) == Some(t@),
            None => after(s@, prefix@) is None,
        },
{
    if starts_with(s, prefix) {
        let v = chars_of(s);
        let p = chars_of(prefix);
        let t = text_of(&v, p.len(), v.len());
        assert(v@.subrange(p@.len() as int, v@.len() as int) == v@.skip(p@.len() as int));
        Some(t)
    } else {
        None
    }
}

/// What precedes a suffix, where the text has it.
pub open spec fn before(s: Seq<char>, suffix: Seq<char>) -> Option<Seq<char>> {
    if suffix.is_suffix_of(s) {
        Some(s.take(s.len() - suffix.len()))
    } else {
        None
    }
}

/// Removes a suffix.
pub fn strip_suffix(s: &str, suffix: &str) -> (r: Option<String>)
    ensures
        match r {
            Some(t) => before(s@, suffix@) == Some(t@),
            None => before(s@, suffix@) is None,
        },
{
    let v = chars_of(s);
    let p = chars_of(suffix);
    if p.len() > v.len() {
        return None;
    }
    let at: usize = v.len() - p.len();
    let tail = text_of(&v, at, v.len());
    if same(tail.as_str(), suffix) {
        let t = text_of(&v, 0, at);
        assert(v@.subrange(0, at as int) == v@.take(at as int));
        Some(t)
    } else {
        None
    }
}

/// The text without the leading occurrences of a character.
pub open spec fn skip_leading(s: Seq<char>, c: char) -> Seq<char>
    decreases s.len(),
{
    if s.len() > 0 && s[0] == c {
        skip_leading(s.drop_first(), c)
    } else {
        s
    }
}

/// Removes the leading occurrences of a character.
pub fn strip_leading(s: &str, c: char) -> (r: String)
    ensures
        r@ == skip_leading(s@, c),
{
    let v = chars_of(s);
    let mut a: usize = 0;
    assert(v@.subrange(0, v@.len() as int) == v@);
    while a < v.len() && v[a] == c
        invariant
            a <= v@.len(),
            skip_leading(v@, c) == skip_leading(v@.subrange(a as int, v@.len() as int), c),
        decreases v@.len() - a,
    {
        let ghost t = v@.subrange(a as int, v@.len() as int);
        assert(t.drop_first() == v@.subrange(a + 1, v@.len() as int));
        a += 1;
    }
    text_of(&v, a, v.len())
}

/// The text without the trailing occurrences of a character.
pub open spec fn skip_trailing(s: Seq<char>, c: char) -> Seq<char>
    decreases s.len(),
{
    if s.len() > 0 && s.last() == c {
        skip_trailing(s.drop_last(), c)
    } else {
        s
    }
}

/// Removes the trailing occurrences of a character.
pub fn strip_trailing(s: &str, c: char) -> (r: String)
    ensures
        r@ == skip_trailing(s@, c),
{
    let v = chars_of(s);
    let mut b: usize = v.len();
    assert(v@.take(v@.len() as int) == v@);
    while b > 0 && v[b - 1] == c
        invariant
            b <= v@.len(),
            skip_trailing(v@, c) == skip_trailing(v@.take(b as int), c),
        decreases b,
    {
        let ghost t = v@.take(b as int);
        assert(t.drop_last() == v@.take(b - 1));
        assert(t.last() == v@[b - 1]);
        b -= 1;
    }
    proof {
        let t = v@.take(b as int);
        if b > 0 {
            assert(t.last() == v@[b - 1]);
        }
        assert(v@.subrange(0, b as int) == t);
    }
    text_of(&v, 0, b)
}

/// Whether a text holds another as a part.
pub open spec fn has_part(s: Seq<char>, part: Seq<char>) -> bool {
    exists|i: int|
        0 <= i <= s.len() - part.len() && #[trigger] s.subrange(i, i + part.len()) == part
}

/// Searches a text for another.
pub fn contains_text(s: &str, part: &str) -> (r: bool)
    ensures
        r == has_part(s@, part@),
{
    let v = chars_of(s);
    let p = chars_of(part);
    if p.len() > v.len() {
        return false;
    }
    let mut i: usize = 0;
    while i <= v.len() - p.len()
        invariant
            p@.len() <= v@.len(),
            i <= v@.len() - p@.len() + 1,
            p@ == part@,
            v@ == s@,
            forall|j: int| 0 <= j < i ==> #[trigger] v@.subrange(j, j + p@.len()) != p@,
        decreases v@.len() - p@.len() + 1 - i,
    {
        let here = text_of(&v, i, i + p.len());
        if same(here.as_str(), part) {
            assert(v@.subrange(i as int, i + p@.len()) == p@);
            return true;
        }
        if i == v.len() - p.len() {
            assert forall|j: int| 0 <= j <= s@.len() - part@.len() implies #[trigger] s@.subrange(
                j,
                j + part@.len(),
            ) != part@ by {
                assert(v@.subrange(j, j + p@.len()) == s@.subrange(j, j + part@.len()));
            }
            return false;
        }
        i += 1;
    }
    false
}

/// Whether a character occurs in a text.
pub fn contains_char(s: &str, c: char) -> (r: bool)
    ensures
        r == s@.contains(c),
{
    let v = chars_of(s);
    let mut i: usize = 0;
    while i < v.len()
        invariant
            i <= v@.len(),
            v@ == s@,
            forall|j: int| 0 <= j < i ==> v@[j] != c,
        decreases v@.len() - i,
    {
        if v[i] == c {
            assert(s@[i as int] == c);
            return true;
        }
        i += 1;
    }
    false
}

/// The text with every occurrence of a character replaced by another text.
pub open spec fn replace_char(s: Seq<char>, c: char, by: Seq<char>) -> Seq<char>
    decreases s.len(),
{
    if s.len() == 0 {
        s
    } else if s.last() == c {
        replace_char(s.drop_last(), c, by) + by
    } else {
        replace_char(s.drop_last(), c, by).push(s.last())
    }
}

/// Replaces every occurrence of a character by a text.
pub fn replaced(s: &str, c: char, by: &str) -> (r: String)
    ensures
        r@ == replace_char(s@, c, by@),
{
    let v = chars_of(s);
    let mut r = String::new();
    let mut i: usize = 0;
    assert(r@ == replace_char(v@.take(0), c, by@));
    while i < v.len()
        invariant
            i <= v@.len(),
            r@ == replace_char(v@.take(i as int), c, by@),
        decreases v@.len() - i,
    {
        let ghost t = v@.take(i + 1);
        assert(t.drop_last() == v@.take(i as int));
        if v[i] == c {
            append(&mut r, by);
        } else {
            r.push(v[i]);
        }
        i += 1;
    }
    assert(v@.take(v@.len() as int) == v@);
    r
}

/// The parts with a separator between each two.
pub open spec fn joined(parts: Seq<Seq<char>>, separator: Seq<char>) -> Seq<char>
    decreases parts.len(),
{
    if parts.len() == 0 {
        Seq::empty()
    } else if parts.len() == 1 {
        parts[0]
    } else {
        joined(parts.drop_last(), separator) + separator + parts.last()
    }
}

/// Joins the parts from `from` on.
pub fn join(parts: &Vec<String>, from: usize, separator: &str) -> (r: String)
    requires
        from <= parts@.len(),
    ensures
        r@ == joined(texts(parts@).skip(from as int), separator@),
{
    let ghost all = texts(parts@).skip(from as int);
    let mut r = String::new();
    let mut i: usize = from;
    while i < parts.len()
        invariant
            from <= i <= parts@.len(),
            all == texts(parts@).skip(from as int),
            r@ == joined(all.take(i - from), separator@),
        decreases parts@.len() - i,
    {
        let ghost t = all.take(i + 1 - from);
        assert(t.drop_last() == all.take(i - from));
        assert(t.last() == parts@[i as int]@);
        if i > from {
            append(&mut r, separator);
        }
        let ghost r0 = r@;
        append(&mut r, parts[i].as_str());
        proof {
            if i == from {
                assert(t.len() == 1);
                assert(r@ == t[0]);
            }
        }
        i += 1;
    }
    assert(all.take(all.len() as int) == all);
    r
}

// ---------------------------------------------------------------------------
// Comparing
// ---------------------------------------------------------------------------

/// The lower-case form of an ASCII letter; any other character is kept.
pub open spec fn fold(c: char) -> char {
    if 'A' <= c && c <= 'Z' {
        (c as u8 + 32) as char
    } else {
        c
    }
}

/// Whether two texts differ at most in the case of ASCII letters.
pub open spec fn same_folded(a: Seq<char>, b: Seq<char>) -> bool {
    &&& a.len() == b.len()
    &&& forall|i: int| 0 <= i < a.len() ==> fold(#[trigger] a[i]) == fold(b[i])
}

fn folded(c: char) -> (r: char)
    ensures
        r == fold(c),
{
    if 'A' <= c && c <= 'Z' {
        (c as u8 + 32) as char
    } else {
        c
    }
}

/// Compares two texts without regard to the case of ASCII letters.
pub fn same_ignoring_case(a: &str, b: &str) -> (r: bool)
    ensures
        r == same_folded(a@, b@),
{
    let x = chars_of(a);
    let y = chars_of(b);
    if x.len() != y.len() {
        return false;
    }
    let mut i: usize = 0;
    while i < x.len()
        invariant
            i <= x@.len(),
            x@.len() == y@.len(),
            x@ == a@,
            y@ == b@,
            forall|j: int| 0 <= j < i ==> fold(#[trigger] x@[j]) == fold(y@[j]),
        decreases x@.len() - i,
    {
        if folded(x[i]) != folded(y[i]) {
            assert(fold(a@[i as int]) != fold(b@[i as int]));
            return false;
        }
        i += 1;
    }
    true
}

/// The order of texts: by the first character in which they differ; a proper prefix comes first.
pub open spec fn text_less(a: Seq<char>, b: Seq<char>) -> bool
    decreases a.len(),
{
    if b.len() == 0 {
        false
    } else if a.len() == 0 {
        true
    } else if a[0] != b[0] {
        a[0] < b[0]
    } else {
        text_less(a.drop_first(), b.drop_first())
    }
}

/// Compares two texts.
pub fn less(a: &str, b: &str) -> (r: bool)
    ensures
        r == text_less(a@, b@),
{
    let x = chars_of(a);
    let y = chars_of(b);
    let mut i: usize = 0;
    assert(x@.skip(0) == x@);
    assert(y@.skip(0) == y@);
    while i < x.len() && i < y.len() && x[i] == y[i]
        invariant
            i <= x@.len(),
            i <= y@.len(),
            text_less(x@, y@) == text_less(x@.skip(i as int), y@.skip(i as int)),
        decreases x@.len() - i,
    {
        assert(x@.skip(i as int).drop_first() == x@.skip(i + 1));
        assert(y@.skip(i as int).drop_first() == y@.skip(i + 1));
        i += 1;
    }
    if i >= y.len() {
        false
    } else if i >= x.len() {
        true
    } else {
        x[i] < y[i]
    }
}

/// Of two different texts exactly one is less than the other.
pub proof fn lemma_text_less_total(a: Seq<char>, b: Seq<char>)
    ensures
        text_less(a, b) || text_less(b, a) || a == b,
        !(text_less(a, b) && text_less(b, a)),
        !text_less(a, a),
    decreases a.len(),
{
    if a.len() > 0 {
        lemma_text_less_total(a.drop_first(), a.drop_first());
    }
    if a.len() > 0 && b.len() > 0 && a[0] == b[0] {
        lemma_text_less_total(a.drop_first(), b.drop_first());
        if a.drop_first() == b.drop_first() {
            assert(a == seq![a[0]] + a.drop_first());
            assert(b == seq![b[0]] + b.drop_first());
        }
    } else if a.len() == 0 && b.len() == 0 {
        assert(a == b);
    }
}

/// The order of texts is transitive.
pub proof fn lemma_text_less_transitive(a: Seq<char>, b: Seq<char>, c: Seq<char>)
    requires
        text_less(a, b),
        text_less(b, c),
    ensures
        text_less(a, c),
    decreases a.len(),
{
    if a.len() > 0 && a[0] == b[0] && b[0] == c[0] {
        lemma_text_less_transitive(a.drop_first(), b.drop_first(), c.drop_first());
    }
}

// ---------------------------------------------------------------------------
// Numbers
// ---------------------------------------------------------------------------

/// The character of a decimal digit.
pub open spec fn digit(n: nat) -> char {
    ('0' as u32 + n) as char
}

/// The decimal form of a number.
pub open spec fn decimal(n: nat) -> Seq<char>
    decreases n,
{
    if n < 10 {
        seq![digit(n)]
    } else {
        decimal(n / 10).push(digit(n % 10))
    }
}

/// Appends the decimal form of a number.
pub fn append_decimal(s: &mut String, n: u64)
    ensures
        final(s)@ == old(s)@ + decimal(n as nat),
    decreases n,
{
    if n >= 10 {
        append_decimal(s, n / 10);
    }
    let d: u8 = (n % 10) as u8;
    s.push((48u8 + d) as char);
    assert(s@ == old(s)@ + decimal(n as nat));
}

/// Why a text is not the decimal form of a number.
#[derive(Clone, Copy, Debug, PartialEq, Eq, Structural)]
pub enum NumberError {
    Empty,
    InvalidDigit,
    TooLarge,
    TooSmall,
}

impl NumberError {
    /// The message of the failure.
    pub open spec fn text(self) -> Seq<char> {
        match self {
            NumberError::Empty => "cannot parse integer from empty string"@,
            NumberError::InvalidDigit => "invalid digit found in string"@,
            NumberError::TooLarge => "number too large to fit in target type"@,
            NumberError::TooSmall => "number too small to fit in target type"@,
        }
    }

    /// Tells the message of the failure.
    pub fn message(&self) -> (r: String)
        ensures
            r@ == self.text(),
    {
        match self {
            NumberError::Empty => "cannot parse integer from empty string".to_owned(),
            NumberError::InvalidDigit => "invalid digit found in string".to_owned(),
            NumberError::TooLarge => "number too large to fit in target type".to_owned(),
            NumberError::TooSmall => "number too small to fit in target type".to_owned(),
        }
    }
}

/// Whether a character is a decimal digit.
pub open spec fn is_digit(c: char) -> bool {
    '0' <= c && c <= '9'
}

/// The value of a run of digits up to `max`; the first character that does not fit decides
/// the error.
pub open spec fn digits(s: Seq<char>, max: nat) -> Result<nat, NumberError>
    decreases s.len(),
{
    if s.len() == 0 {
        Ok(0)
    } else {
        match digits(s.drop_last(), max) {
            Err(e) => Err(e),
            Ok(v) => {
                let next = v * 10 + (s.last() as u32 - '0' as u32) as nat;
                if !is_digit(s.last()) {
                    Err(NumberError::InvalidDigit)
                } else if next > max {
                    Err(NumberError::TooLarge)
                } else {
                    Ok(next)
                }
            },
        }
    }
}

/// The unsigned number that a text writes: an optional plus sign and at least one digit.
pub open spec fn number(s: Seq<char>, max: nat) -> Result<nat, NumberError> {
    if s.len() == 0 {
        Err(NumberError::Empty)
    } else if s[0] == '+' {
        if s.len() == 1 {
            Err(NumberError::InvalidDigit)
        } else {
            digits(s.skip(1), max)
        }
    } else {
        digits(s, max)
    }
}

/// An error in the first digits is the error of them all.
pub proof fn lemma_digits_error_stays(s: Seq<char>, k: int, max: nat)
    requires
        0 <= k <= s.len(),
        digits(s.take(k), max) is Err,
    ensures
        digits(s, max) == digits(s.take(k), max),
    decreases s.len() - k,
{
    if k < s.len() {
        assert(s.take(k + 1).drop_last() == s.take(k));
        lemma_digits_error_stays(s, k + 1, max);
    } else {
        assert(s.take(k) == s);
    }
}

fn digits_from(v: &Vec<char>, from: usize, max: u64) -> (r: Result<u64, NumberError>)
    requires
        from <= v@.len(),
    ensures
        match r {
            Ok(n) => digits(v@.skip(from as int), max as nat) == Ok::<nat, NumberError>(n as nat),
            Err(e) => digits(v@.skip(from as int), max as nat) == Err::<nat, NumberError>(e),
        },
{
    let ghost t = v@.skip(from as int);
    let mut n: u64 = 0;
    let mut i: usize = from;
    while i < v.len()
        invariant
            from <= i <= v@.len(),
            t == v@.skip(from as int),
            n <= max,
            digits(t.take(i - from), max as nat) == Ok::<nat, NumberError>(n as nat),
        decreases v@.len() - i,
    {
        let c: char = v[i];
        let ghost u = t.take(i + 1 - from);
        assert(u.drop_last() == t.take(i - from));
        assert(u.last() == c);
        if !('0' <= c && c <= '9') {
            proof {
                lemma_digits_error_stays(t, i + 1 - from, max as nat);
            }
            return Err(NumberError::InvalidDigit);
        }
        let wide: u128 = n as u128 * 10 + (c as u32 - 48) as u128;
        if wide > max as u128 {
            proof {
                lemma_digits_error_stays(t, i + 1 - from, max as nat);
            }
            return Err(NumberError::TooLarge);
        }
        n = wide as u64;
        i += 1;
    }
    assert(t.take(t.len() as int) == t);
    Ok(n)
}

/// Reads an unsigned number.
pub fn parse_number(s: &str, max: u64) -> (r: Result<u64, NumberError>)
    ensures
        match r {
            Ok(n) => number(s@, max as nat) == Ok::<nat, NumberError>(n as nat) && n <= max,
            Err(e) => number(s@, max as nat) == Err::<nat, NumberError>(e),
        },
{
    let v = chars_of(s);
    if v.len() == 0 {
        return Err(NumberError::Empty);
    }
    if v[0] == '+' {
        if v.len() == 1 {
            return Err(NumberError::InvalidDigit);
        }
        return digits_from(&v, 1, max);
    }
    assert(v@.skip(0) == v@);
    digits_from(&v, 0, max)
}

/// The signed number of 64 bits that a text writes: an optional sign and at least one digit.
pub open spec fn signed_number(s: Seq<char>) -> Result<int, NumberError> {
    if s.len() == 0 {
        Err(NumberError::Empty)
    } else if s[0] == '+' || s[0] == '-' {
        if s.len() == 1 {
            Err(NumberError::InvalidDigit)
        } else if s[0] == '+' {
            match digits(s.skip(1), i64::MAX as nat) {
                Ok(n) => Ok(n as int),
                Err(e) => Err(e),
            }
        } else {
            match digits(s.skip(1), 0x8000_0000_0000_0000) {
                Ok(n) => Ok(-n),
                Err(NumberError::TooLarge) => Err(NumberError::TooSmall),
                Err(e) => Err(e),
            }
        }
    } else {
        match digits(s, i64::MAX as nat) {
            Ok(n) => Ok(n as int),
            Err(e) => Err(e),
        }
    }
}

fn negated(n: u64) -> (r: i64)
    requires
        n <= 0x8000_0000_0000_0000,
    ensures
        r == -n,
{
    if n == 0x8000_0000_0000_0000 {
        i64::MIN
    } else {
        0 - (n as i64)
    }
}

/// Reads a signed number.
pub fn parse_signed(s: &str) -> (r: Result<i64, NumberError>)
    ensures
        match r {
            Ok(n) => signed_number(s@) == Ok::<int, NumberError>(n as int),
            Err(e) => signed_number(s@) == Err::<int, NumberError>(e),
        },
{
    let v = chars_of(s);
    if v.len() == 0 {
        return Err(NumberError::Empty);
    }
    if v[0] == '+' || v[0] == '-' {
        if v.len() == 1 {
            return Err(NumberError::InvalidDigit);
        }
        if v[0] == '+' {
            match digits_from(&v, 1, i64::MAX as u64) {
                Ok(n) => {
                    proof {
                        lemma_digits_bound(v@.skip(1), i64::MAX as nat);
                    }
                    return Ok(n as i64);
                },
                Err(e) => {
                    return Err(e);
                },
            }
        }
        match digits_from(&v, 1, 0x8000_0000_0000_0000) {
            Ok(n) => {
                proof {
                    lemma_digits_bound(v@.skip(1), 0x8000_0000_0000_0000);
                }
                return Ok(negated(n));
            },
            Err(NumberError::TooLarge) => {
                return Err(NumberError::TooSmall);
            },
            Err(e) => {
                return Err(e);
            },
        }
    }
    assert(v@.skip(0) == v@);
    match digits_from(&v, 0, i64::MAX as u64) {
        Ok(n) => {
            proof {
                lemma_digits_bound(v@, i64::MAX as nat);
            }
            Ok(n as i64)
        },
        Err(e) => Err(e),
    }
}

proof fn lemma_digits_bound(s: Seq<char>, max: nat)
    requires
        digits(s, max) is Ok,
    ensures
        digits(s, max)->Ok_0 <= max,
{
}

// ---------------------------------------------------------------------------
// Prefixes
// ---------------------------------------------------------------------------

/// The first characters of a text.
pub open spec fn first_chars(s: Seq<char>, n: nat) -> Seq<char> {
    if s.len() <= n {
        s
    } else {
        s.take(n as int)
    }
}

/// The first characters of a text.
pub fn prefix_chars(s: &str, n: usize) -> (r: String)
    ensures
        r@ == first_chars(s@, n as nat),
{
    let v = chars_of(s);
    let end: usize = if v.len() <= n {
        v.len()
    } else {
        n
    };
    let r = text_of(&v, 0, end);
    assert(r@ == first_chars(s@, n as nat));
    r
}

/// The longest prefix of a text whose UTF-8 encoding has at most `limit` bytes.
pub open spec fn fitting(s: Seq<char>, limit: nat) -> Seq<char>
    decreases s.len(),
{
    if vstd::utf8::encode_utf8(s).len() <= limit {
        s
    } else {
        fitting(s.drop_last(), limit)
    }
}

proof fn lemma_encoded_len_push(s: Seq<char>, c: char)
    ensures
        vstd::utf8::encode_utf8(s.push(c)).len() == vstd::utf8::encode_utf8(s).len()
            + vstd::utf8::encode_scalar(c as u32).len(),
    decreases s.len(),
{
    if s.len() == 0 {
        assert(s.push(c).drop_first() == Seq::<char>::empty());
        reveal_with_fuel(vstd::utf8::encode_utf8, 2);
    } else {
        assert(s.push(c).drop_first() == s.drop_first().push(c));
        lemma_encoded_len_push(s.drop_first(), c);
    }
}

proof fn lemma_fitting(s: Seq<char>, limit: nat, n: int)
    requires
        0 <= n < s.len(),
        vstd::utf8::encode_utf8(s.take(n)).len() <= limit,
        vstd::utf8::encode_utf8(s.take(n + 1)).len() > limit,
    ensures
        fitting(s, limit) == s.take(n),
    decreases s.len(),
{
    lemma_encoded_len_grows(s, n + 1);
    if n + 1 == s.len() {
        reveal_with_fuel(fitting, 2);
        assert(s.drop_last() == s.take(n));
    } else {
        assert(s.drop_last().take(n) == s.take(n));
        assert(s.drop_last().take(n + 1) == s.take(n + 1));
        lemma_fitting(s.drop_last(), limit, n);
    }
}

proof fn lemma_encoded_len_grows(s: Seq<char>, n: int)
    requires
        0 <= n <= s.len(),
    ensures
        vstd::utf8::encode_utf8(s.take(n)).len() <= vstd::utf8::encode_utf8(s).len(),
    decreases s.len(),
{
    if n == s.len() {
        assert(s.take(n) == s);
    } else {
        assert(s.drop_last().take(n) == s.take(n));
        lemma_encoded_len_grows(s.drop_last(), n);
        lemma_encoded_len_push(s.drop_last(), s.last());
        assert(s.drop_last().push(s.last()) == s);
    }
}

fn encoded_width(c: char) -> (r: usize)
    ensures
        r == vstd::utf8::encode_scalar(c as u32).len(),
        r <= 4,
{
    let n: u32 = c as u32;
    if n <= 0x7f {
        1
    } else if n <= 0x7ff {
        2
    } else if n <= 0xffff {
        3
    } else {
        4
    }
}

/// The longest prefix of a text that fits into a number of bytes.
pub fn prefix_bytes(s: &str, limit: usize) -> (r: String)
    ensures
        r@ == fitting(s@, limit as nat),
{
    let v = chars_of(s);
    let mut used: usize = 0;
    let mut i: usize = 0;
    assert(v@.take(0) == Seq::<char>::empty());
    while i < v.len()
        invariant
            i <= v@.len(),
            v@ == s@,
            used == vstd::utf8::encode_utf8(v@.take(i as int)).len(),
            used <= limit,
        decreases v@.len() - i,
    {
        let width: usize = encoded_width(v[i]);
        proof {
            lemma_encoded_len_push(v@.take(i as int), v@[i as int]);
            assert(v@.take(i as int).push(v@[i as int]) == v@.take(i + 1));
        }
        if width > limit - used {
            proof {
                lemma_fitting(v@, limit as nat, i as int);
            }
            let r = text_of(&v, 0, i);
            assert(r@ == v@.take(i as int));
            return r;
        }
        used = used + width;
        i = i + 1;
    }
    assert(v@.take(v@.len() as int) == v@);
    s.to_owned()
}

// ---------------------------------------------------------------------------
// Laws
// ---------------------------------------------------------------------------

/// White space is what Unicode counts as such, and nothing else.
pub proof fn law_white_space(c: char)
    ensures
        is_white(c) <==> seq![
            '\t',
            '\n',
            '\u{b}',
            '\u{c}',
            '\r',
            ' ',
            '\u{85}',
            '\u{a0}',
            '\u{1680}',
            '\u{2000}',
            '\u{2001}',
            '\u{2002}',
            '\u{2003}',
            '\u{2004}',
            '\u{2005}',
            '\u{2006}',
            '\u{2007}',
            '\u{2008}',
            '\u{2009}',
            '\u{200a}',
            '\u{2028}',
            '\u{2029}',
            '\u{202f}',
            '\u{205f}',
            '\u{3000}',
        ].contains(c),
{
    let all = seq![
        '\t',
        '\n',
        '\u{b}',
        '\u{c}',
        '\r',
        ' ',
        '\u{85}',
        '\u{a0}',
        '\u{1680}',
        '\u{2000}',
        '\u{2001}',
        '\u{2002}',
        '\u{2003}',
        '\u{2004}',
        '\u{2005}',
        '\u{2006}',
        '\u{2007}',
        '\u{2008}',
        '\u{2009}',
        '\u{200a}',
        '\u{2028}',
        '\u{2029}',
        '\u{202f}',
        '\u{205f}',
        '\u{3000}',
    ];
    assert(all[0] == '\t' && all[1] == '\n' && all[2] == '\u{b}' && all[3] == '\u{c}' && all[4]
        == '\r' && all[5] == ' ' && all[6] == '\u{85}' && all[7] == '\u{a0}' && all[8]
        == '\u{1680}' && all[9] == '\u{2000}' && all[10] == '\u{2001}' && all[11] == '\u{2002}'
        && all[12] == '\u{2003}' && all[13] == '\u{2004}' && all[14] == '\u{2005}' && all[15]
        == '\u{2006}' && all[16] == '\u{2007}' && all[17] == '\u{2008}' && all[18] == '\u{2009}'
        && all[19] == '\u{200a}' && all[20] == '\u{2028}' && all[21] == '\u{2029}' && all[22]
        == '\u{202f}' && all[23] == '\u{205f}' && all[24] == '\u{3000}');
    if all.contains(c) {
        let i = choose|i: int| 0 <= i < all.len() && all[i] == c;
        assert(is_white(c));
    }
}

/// What is trimmed off is white space, and what is left begins and ends with none.
pub proof fn law_trimming_takes_white_space_off(s: Seq<char>)
    ensures
        exists|i: int, j: int|
            {
                &&& 0 <= i <= j <= s.len()
                &&& trim(s) == #[trigger] s.subrange(i, j)
                &&& forall|k: int| 0 <= k < i ==> is_white(#[trigger] s[k])
                &&& forall|k: int| j <= k < s.len() ==> is_white(#[trigger] s[k])
            },
        trim(s).len() > 0 ==> !is_white(trim(s)[0]) && !is_white(trim(s).last()),
{
    let a = trim_start(s);
    let i = lemma_trim_start(s);
    let n = lemma_trim_end(a);
    assert(trim(s) == s.subrange(i, i + n));
    assert forall|k: int| i + n <= k < s.len() implies is_white(#[trigger] s[k]) by {
        assert(a[k - i] == s[k]);
    }
    if trim(s).len() > 0 {
        assert(trim(s)[0] == a[0]);
    }
}

proof fn lemma_trim_start(s: Seq<char>) -> (i: int)
    ensures
        0 <= i <= s.len(),
        trim_start(s) == s.skip(i),
        forall|k: int| 0 <= k < i ==> is_white(#[trigger] s[k]),
        i < s.len() ==> !is_white(s[i]),
    decreases s.len(),
{
    if s.len() > 0 && is_white(s[0]) {
        let rest = s.drop_first();
        let i = lemma_trim_start(rest);
        assert(rest.skip(i) == s.skip(i + 1));
        assert forall|k: int| 0 <= k < i + 1 implies is_white(#[trigger] s[k]) by {
            if k > 0 {
                assert(rest[k - 1] == s[k]);
            }
        }
        i + 1
    } else {
        assert(s.skip(0) == s);
        0
    }
}

/// What is trimmed off an end is white space, and what is left ends with none.
pub proof fn lemma_trim_end(s: Seq<char>) -> (n: int)
    ensures
        0 <= n <= s.len(),
        trim_end(s) == s.take(n),
        forall|k: int| n <= k < s.len() ==> is_white(#[trigger] s[k]),
        n > 0 ==> !is_white(s[n - 1]),
    decreases s.len(),
{
    if s.len() > 0 && is_white(s.last()) {
        let n = lemma_trim_end(s.drop_last());
        assert(s.drop_last().take(n) == s.take(n));
        assert forall|k: int| n <= k < s.len() implies is_white(#[trigger] s[k]) by {
            if k < s.len() - 1 {
                assert(s.drop_last()[k] == s[k]);
            }
        }
        n
    } else {
        assert(s.take(s.len() as int) == s);
        s.len() as int
    }
}

/// A line without white space at its ends is what is left of it when its end is trimmed off.
pub proof fn lemma_trim_line(s: Seq<char>)
    requires
        s.len() > 0,
        !is_white(s[0]),
        !is_white(s.last()),
    ensures
        trim(s + "\n"@) == s,
{
    reveal_strlit("\n");
    let line = s + "\n"@;
    assert(line =~= s.push('\n'));
    assert(line[0] == s[0]);
    assert(trim_start(line) == line);
    assert(is_white('\n'));
    assert(line.drop_last() =~= s);
    assert(trim_end(line) == trim_end(s));
}

/// White space parts words: the words on its two sides are the words of the whole.
pub proof fn law_white_space_parts_words(a: Seq<char>, c: char, b: Seq<char>)
    requires
        is_white(c),
    ensures
        words(a.push(c) + b) == words(a) + words(b),
{
    lemma_word_scan(a, c, b);
    assert(words(a) + word_scan(b).0.push(word_scan(b).1) == (words(a) + word_scan(b).0).push(
        word_scan(b).1,
    ));
}

proof fn lemma_word_scan(a: Seq<char>, c: char, b: Seq<char>)
    requires
        is_white(c),
    ensures
        word_scan(a.push(c) + b) == (words(a) + word_scan(b).0, word_scan(b).1),
    decreases b.len(),
{
    let s = a.push(c) + b;
    if b.len() == 0 {
        assert(s == a.push(c));
        assert(s.drop_last() == a);
        assert(words(a) + word_scan(b).0 == words(a));
    } else {
        lemma_word_scan(a, c, b.drop_last());
        assert(s.drop_last() == a.push(c) + b.drop_last());
        let (done, current) = word_scan(b.drop_last());
        assert((words(a) + done).push(current) == words(a) + done.push(current));
    }
}

/// A text without white space is one word, and no text is none.
pub proof fn law_text_without_white_space_is_a_word(w: Seq<char>)
    requires
        forall|i: int| 0 <= i < w.len() ==> !is_white(#[trigger] w[i]),
    ensures
        words(w) == if w.len() == 0 {
            Seq::<Seq<char>>::empty()
        } else {
            seq![w]
        },
{
    lemma_one_word(w);
}

proof fn lemma_one_word(w: Seq<char>)
    requires
        forall|i: int| 0 <= i < w.len() ==> !is_white(#[trigger] w[i]),
    ensures
        word_scan(w) == (Seq::<Seq<char>>::empty(), w),
    decreases w.len(),
{
    if w.len() > 0 {
        assert forall|i: int| 0 <= i < w.drop_last().len() implies !is_white(
            #[trigger] w.drop_last()[i],
        ) by {
            assert(w.drop_last()[i] == w[i]);
        }
        assert(!is_white(w[w.len() - 1]));
        lemma_one_word(w.drop_last());
        assert(w.drop_last().push(w.last()) == w);
    }
}

/// Three words with a space between them are three words.
pub proof fn lemma_three_words(a: Seq<char>, b: Seq<char>, c: Seq<char>)
    requires
        a.len() > 0 && forall|i: int| 0 <= i < a.len() ==> !is_white(#[trigger] a[i]),
        b.len() > 0 && forall|i: int| 0 <= i < b.len() ==> !is_white(#[trigger] b[i]),
        c.len() > 0 && forall|i: int| 0 <= i < c.len() ==> !is_white(#[trigger] c[i]),
    ensures
        words(a + " "@ + b + " "@ + c) == seq![a, b, c],
{
    reveal_strlit(" ");
    assert(a + " "@ + b + " "@ + c == a.push(' ') + (b.push(' ') + c));
    law_white_space_parts_words(a, ' ', b.push(' ') + c);
    law_white_space_parts_words(b, ' ', c);
    law_text_without_white_space_is_a_word(a);
    law_text_without_white_space_is_a_word(b);
    law_text_without_white_space_is_a_word(c);
    assert(seq![a] + (seq![b] + seq![c]) == seq![a, b, c]);
}

/// A separator parts a text: the parts on its two sides are the parts of the whole.
pub proof fn law_separator_parts_a_text(a: Seq<char>, c: char, b: Seq<char>)
    ensures
        split_on(a.push(c) + b, c) == split_on(a, c) + split_on(b, c),
    decreases b.len(),
{
    let s = a.push(c) + b;
    lemma_split_on_nonempty(a, c);
    if b.len() == 0 {
        assert(s == a.push(c));
        assert(s.drop_last() == a);
        assert(split_on(a, c) + split_on(b, c) == split_on(a, c).push(Seq::<char>::empty()));
    } else {
        law_separator_parts_a_text(a, c, b.drop_last());
        lemma_split_on_nonempty(b.drop_last(), c);
        assert(s.drop_last() == a.push(c) + b.drop_last());
        let x = split_on(a, c);
        let y = split_on(b.drop_last(), c);
        assert((x + y).last() == y.last());
        assert((x + y).drop_last() == x + y.drop_last());
        assert(x + y.push(Seq::<char>::empty()) == (x + y).push(Seq::<char>::empty()));
        assert(x + y.drop_last().push(y.last().push(s.last())) == (x + y).drop_last().push(
            y.last().push(s.last()),
        ));
    }
}

/// A text without the separator is one part.
pub proof fn law_text_without_separator_is_one_part(s: Seq<char>, c: char)
    requires
        !s.contains(c),
    ensures
        split_on(s, c) == seq![s],
    decreases s.len(),
{
    if s.len() > 0 {
        assert forall|i: int| 0 <= i < s.drop_last().len() implies s.drop_last()[i] != c by {
            assert(s[i] != c);
        }
        law_text_without_separator_is_one_part(s.drop_last(), c);
        assert(s[s.len() - 1] != c);
        let parts = split_on(s.drop_last(), c);
        assert(parts.drop_last() == Seq::<Seq<char>>::empty());
        assert(s.drop_last().push(s.last()) == s);
    } else {
        assert(s == Seq::<char>::empty());
    }
}

/// The parts of a text, put together with the separator, are the text.
pub proof fn law_joining_undoes_splitting(s: Seq<char>, c: char)
    ensures
        joined(split_on(s, c), seq![c]) == s,
    decreases s.len(),
{
    lemma_split_on_nonempty(s, c);
    if s.len() > 0 {
        law_joining_undoes_splitting(s.drop_last(), c);
        lemma_split_on_nonempty(s.drop_last(), c);
        let parts = split_on(s.drop_last(), c);
        let all = split_on(s, c);
        if s.last() == c {
            assert(all.drop_last() == parts);
            assert(s.drop_last() + seq![c] + Seq::<char>::empty() == s);
        } else {
            assert(all.drop_last() == parts.drop_last());
            if parts.len() == 1 {
                assert(parts[0].push(s.last()) == s);
            } else {
                let front = joined(parts.drop_last(), seq![c]);
                assert(front + seq![c] + parts.last().push(s.last()) == (front + seq![c]
                    + parts.last()).push(s.last()));
                assert(s.drop_last().push(s.last()) == s);
            }
        }
    }
}

/// A line ends at its newline, with or without a carriage return, and the rest are further lines.
pub proof fn law_newline_ends_a_line(a: Seq<char>, b: Seq<char>)
    requires
        !a.contains('\n'),
    ensures
        lines(a.push('\r').push('\n') + b) == seq![a] + lines(b),
        a.len() == 0 || a.last() != '\r' ==> lines(a.push('\n') + b) == seq![a] + lines(b),
{
    lemma_line_scan_start(a);
    let r = a.push('\r');
    assert forall|i: int| 0 <= i < r.len() implies r[i] != '\n' by {
        if i < a.len() {
            assert(a[i] != '\n');
        }
    }
    lemma_line_scan_start(r);
    lemma_line_scan(r, b);
    lemma_line_scan(a, b);
    assert(r.drop_last() == a);
    let (done, current) = line_scan(b);
    assert(seq![a] + done.push(current) == (seq![a] + done).push(current));
}

proof fn lemma_line_scan_start(a: Seq<char>)
    requires
        !a.contains('\n'),
    ensures
        line_scan(a) == (Seq::<Seq<char>>::empty(), a),
    decreases a.len(),
{
    if a.len() > 0 {
        assert forall|i: int| 0 <= i < a.drop_last().len() implies a.drop_last()[i] != '\n' by {
            assert(a[i] != '\n');
        }
        lemma_line_scan_start(a.drop_last());
        assert(a[a.len() - 1] != '\n');
        assert(a.drop_last().push(a.last()) == a);
    }
}

proof fn lemma_line_scan(a: Seq<char>, b: Seq<char>)
    requires
        line_scan(a) == (Seq::<Seq<char>>::empty(), a),
    ensures
        line_scan(a.push('\n') + b) == (seq![without_return(a)] + line_scan(b).0, line_scan(b).1),
    decreases b.len(),
{
    let s = a.push('\n') + b;
    let first = seq![without_return(a)];
    if b.len() == 0 {
        assert(s == a.push('\n'));
        assert(s.drop_last() == a);
        assert(Seq::<Seq<char>>::empty().push(without_return(a)) == first + line_scan(b).0);
    } else {
        lemma_line_scan(a, b.drop_last());
        assert(s.drop_last() == a.push('\n') + b.drop_last());
        let (done, current) = line_scan(b.drop_last());
        assert((first + done).push(without_return(current)) == first + done.push(
            without_return(current),
        ));
    }
}

/// A text without a newline is one line, and no text is none.
pub proof fn law_text_without_newline_is_a_line(a: Seq<char>)
    requires
        !a.contains('\n'),
    ensures
        lines(a) == if a.len() == 0 {
            Seq::<Seq<char>>::empty()
        } else {
            seq![a]
        },
{
    lemma_line_scan_start(a);
}

/// A text is parted at the first separator, where it has one.
pub proof fn law_first_separator_parts_a_text(a: Seq<char>, c: char, b: Seq<char>)
    requires
        !a.contains(c),
    ensures
        halves(a.push(c) + b, c) == Some((a, b)),
        halves(a, c) is None,
{
    let s = a.push(c) + b;
    assert forall|i: int| 0 <= i < a.len() implies a[i] != c by {}
    lemma_first_index_at(s, c, a.len() as int);
    lemma_first_index_none(a, c);
    assert(s.take(a.len() as int) == a);
    assert(s.skip(a.len() as int + 1) == b);
}

proof fn lemma_first_index_at(s: Seq<char>, c: char, i: int)
    requires
        0 <= i < s.len(),
        s[i] == c,
        forall|k: int| 0 <= k < i ==> s[k] != c,
    ensures
        first_index(s, c) == i,
    decreases i,
{
    if i > 0 {
        assert(s[0] != c);
        lemma_first_index_at(s.drop_first(), c, i - 1);
    }
}

/// What a text is parted into, where it is.
pub proof fn lemma_halves(s: Seq<char>, c: char)
    ensures
        match halves(s, c) {
            Some((a, b)) => s == a.push(c) + b && !a.contains(c),
            None => !s.contains(c),
        },
{
    if s.contains(c) {
        let n = lemma_first_occurrence(s, c);
        lemma_first_index_at(s, c, n);
        assert(s == s.take(n).push(c) + s.skip(n + 1));
    } else {
        lemma_first_index_none(s, c);
    }
}

proof fn lemma_first_occurrence(s: Seq<char>, c: char) -> (n: int)
    requires
        s.contains(c),
    ensures
        0 <= n < s.len(),
        s[n] == c,
        forall|k: int| 0 <= k < n ==> s[k] != c,
    decreases s.len(),
{
    if s[0] == c {
        0
    } else {
        let rest = s.drop_first();
        let i = choose|i: int| 0 <= i < s.len() && s[i] == c;
        assert(rest[i - 1] == c);
        let n = lemma_first_occurrence(rest, c);
        assert forall|k: int| 0 <= k < n + 1 implies s[k] != c by {
            if k > 0 {
                assert(rest[k - 1] != c);
            }
        }
        n + 1
    }
}

proof fn lemma_first_index_none(s: Seq<char>, c: char)
    requires
        !s.contains(c),
    ensures
        first_index(s, c) == s.len(),
    decreases s.len(),
{
    if s.len() > 0 {
        assert(s[0] != c);
        assert forall|i: int| 0 <= i < s.drop_first().len() implies s.drop_first()[i] != c by {
            assert(s[i + 1] != c);
        }
        lemma_first_index_none(s.drop_first(), c);
    }
}

/// What stands behind a prefix and before a suffix is found again, and nothing is found where
/// they are not there.
pub proof fn law_prefixes_and_suffixes_come_off(a: Seq<char>, b: Seq<char>, s: Seq<char>)
    ensures
        after(a + b, a) == Some(b),
        before(a + b, b) == Some(a),
        after(s, a) matches Some(rest) ==> s == a + rest,
        before(s, b) matches Some(front) ==> s == front + b,
{
    assert(a.is_prefix_of(a + b));
    assert((a + b).skip(a.len() as int) == b);
    assert(b.is_suffix_of(a + b));
    assert((a + b).take(a.len() as int) == a);
    if a.is_prefix_of(s) {
        assert(s == a + s.skip(a.len() as int));
    }
    if b.is_suffix_of(s) {
        assert(s == s.take(s.len() - b.len()) + b);
    }
}

/// Leading and trailing characters come off as long as there are any.
pub proof fn law_leading_and_trailing_characters_come_off(s: Seq<char>, c: char)
    ensures
        s.len() == 0 || s[0] != c ==> skip_leading(s, c) == s,
        skip_leading(seq![c] + s, c) == skip_leading(s, c),
        s.len() == 0 || s.last() != c ==> skip_trailing(s, c) == s,
        skip_trailing(s.push(c), c) == skip_trailing(s, c),
{
    assert((seq![c] + s).drop_first() == s);
    assert(s.push(c).drop_last() == s);
}

/// A text has a part exactly where something before it and something behind it make up the text.
pub proof fn law_parts_stand_anywhere(a: Seq<char>, part: Seq<char>, b: Seq<char>, s: Seq<char>)
    ensures
        has_part(a + part + b, part),
        has_part(s, part) ==> exists|i: int|
            0 <= i <= s.len() - part.len() && s == #[trigger] s.take(i) + part + s.skip(
                i + part.len(),
            ),
{
    assert((a + part + b).subrange(a.len() as int, a.len() as int + part.len()) == part);
    if has_part(s, part) {
        let i = choose|i: int|
            0 <= i <= s.len() - part.len() && #[trigger] s.subrange(i, i + part.len()) == part;
        assert(s == s.take(i) + part + s.skip(i + part.len()));
    }
}

/// Every character of its kind is replaced, and no other one is.
pub proof fn law_replacing_characters(a: Seq<char>, c: char, b: Seq<char>, by: Seq<char>)
    ensures
        replace_char(a.push(c) + b, c, by) == replace_char(a, c, by) + by + replace_char(b, c, by),
        !a.contains(c) ==> replace_char(a, c, by) == a,
    decreases a.len() + b.len(),
{
    let s = a.push(c) + b;
    if b.len() == 0 {
        assert(s == a.push(c));
        assert(s.drop_last() == a);
        assert(replace_char(a, c, by) + by + b == replace_char(a, c, by) + by);
    } else {
        law_replacing_characters(a, c, b.drop_last(), by);
        assert(s.drop_last() == a.push(c) + b.drop_last());
        let x = replace_char(a, c, by) + by;
        let y = replace_char(b.drop_last(), c, by);
        assert(x + (y + by) == x + y + by);
        assert(x + y.push(s.last()) == (x + y).push(s.last()));
    }
    if !a.contains(c) && a.len() > 0 {
        assert forall|i: int| 0 <= i < a.drop_last().len() implies a.drop_last()[i] != c by {
            assert(a[i] != c);
        }
        assert(a[a.len() - 1] != c);
        law_replacing_characters(a.drop_last(), c, Seq::<char>::empty(), by);
        assert(a.drop_last().push(a.last()) == a);
    }
}

/// Texts are the same, the case of ASCII letters aside, where each two characters are equal or
/// are the two cases of one letter.
pub proof fn law_case_of_ascii_letters_is_ignored(a: Seq<char>, b: Seq<char>)
    ensures
        same_folded(a, b) <==> {
            &&& a.len() == b.len()
            &&& forall|i: int|
                0 <= i < a.len() ==> #[trigger] a[i] == b[i] || ('A' <= a[i] <= 'Z' && b[i] as u32
                    == a[i] as u32 + 32) || ('A' <= b[i] <= 'Z' && a[i] as u32 == b[i] as u32 + 32)
        },
{
    if a.len() == b.len() {
        assert forall|i: int| 0 <= i < a.len() implies (fold(#[trigger] a[i]) == fold(b[i])) == (
        a[i] == b[i] || ('A' <= a[i] <= 'Z' && b[i] as u32 == a[i] as u32 + 32) || ('A' <= b[i]
            <= 'Z' && a[i] as u32 == b[i] as u32 + 32)) by {
            lemma_fold(a[i]);
            lemma_fold(b[i]);
        }
    }
}

proof fn lemma_fold(c: char)
    ensures
        'A' <= c <= 'Z' ==> fold(c) as u32 == c as u32 + 32,
        !('A' <= c <= 'Z') ==> fold(c) == c,
{
}

/// A text is less than another where it is the beginning of it, or where the first characters
/// that differ are in order.
pub proof fn law_texts_are_ordered_by_their_first_difference(a: Seq<char>, b: Seq<char>)
    ensures
        text_less(a, b) <==> exists|i: int|
            {
                &&& 0 <= i <= a.len()
                &&& i < b.len()
                &&& #[trigger] a.take(i) == b.take(i)
                &&& i == a.len() || a[i] < b[i]
            },
    decreases a.len(),
{
    if b.len() > 0 && a.len() > 0 && a[0] == b[0] {
        let x = a.drop_first();
        let y = b.drop_first();
        law_texts_are_ordered_by_their_first_difference(x, y);
        if text_less(x, y) {
            let i = choose|i: int|
                {
                    &&& 0 <= i <= x.len()
                    &&& i < y.len()
                    &&& #[trigger] x.take(i) == y.take(i)
                    &&& i == x.len() || x[i] < y[i]
                };
            let (p, q) = (a.take(i + 1), b.take(i + 1));
            assert forall|k: int| 0 <= k < i + 1 implies p[k] == q[k] by {
                if k > 0 {
                    assert(x.take(i)[k - 1] == y.take(i)[k - 1]);
                }
            }
            assert(p == q);
        }
        if exists|i: int|
            {
                &&& 0 <= i <= a.len()
                &&& i < b.len()
                &&& #[trigger] a.take(i) == b.take(i)
                &&& i == a.len() || a[i] < b[i]
            } {
            let i = choose|i: int|
                {
                    &&& 0 <= i <= a.len()
                    &&& i < b.len()
                    &&& #[trigger] a.take(i) == b.take(i)
                    &&& i == a.len() || a[i] < b[i]
                };
            assert(i > 0);
            let (p, q) = (x.take(i - 1), y.take(i - 1));
            assert forall|k: int| 0 <= k < i - 1 implies p[k] == q[k] by {
                assert(a.take(i)[k + 1] == b.take(i)[k + 1]);
            }
            assert(p == q);
        }
    } else if b.len() > 0 {
        assert(a.take(0) == b.take(0));
        assert forall|i: int| 0 < i <= a.len() && i < b.len() implies #[trigger] a.take(i)
            != b.take(i) by {
            assert(a.take(i)[0] == a[0]);
            assert(b.take(i)[0] == b[0]);
        }
    }
}

/// Decimal text: the last digit, and before it the rest of the number where there is one.
pub proof fn law_decimal_text(n: nat)
    ensures
        decimal(n).last() == "0123456789"@[(n % 10) as int],
        n < 10 ==> decimal(n).len() == 1,
        n >= 10 ==> decimal(n).drop_last() == decimal(n / 10),
        forall|i: int| 0 <= i < decimal(n).len() ==> is_digit(#[trigger] decimal(n)[i]),
    decreases n,
{
    reveal_strlit("0123456789");
    lemma_digit((n % 10) as nat);
    if n >= 10 {
        law_decimal_text(n / 10);
        assert(decimal(n).drop_last() == decimal(n / 10));
        assert forall|i: int| 0 <= i < decimal(n).len() implies is_digit(#[trigger] decimal(n)[i]) by {
            if i < decimal(n).len() - 1 {
                assert(decimal(n)[i] == decimal(n / 10)[i]);
            }
        }
    }
}

proof fn lemma_digit(d: nat)
    requires
        d < 10,
    ensures
        is_digit(digit(d)),
        digit(d) as u32 == '0' as u32 + d,
        digit(d) == "0123456789"@[d as int],
{
    reveal_strlit("0123456789");
    assert(d == 0 || d == 1 || d == 2 || d == 3 || d == 4 || d == 5 || d == 6 || d == 7 || d == 8
        || d == 9);
}

/// The decimal text of a number is read as that number, unless it is too large; a plus sign
/// before it makes no difference.
pub proof fn law_decimal_text_is_read_back(n: nat, max: nat)
    ensures
        number(decimal(n), max) == (if n <= max {
            Ok::<nat, NumberError>(n)
        } else {
            Err(NumberError::TooLarge)
        }),
        number("+"@ + decimal(n), max) == number(decimal(n), max),
{
    reveal_strlit("+");
    lemma_digits_of_decimal(n, max);
    law_decimal_text(n);
    assert(decimal(n).len() > 0);
    assert(is_digit(decimal(n)[0]));
    assert(("+"@ + decimal(n)).skip(1) == decimal(n));
}

proof fn lemma_digits_of_decimal(n: nat, max: nat)
    ensures
        decimal(n).len() > 0,
        digits(decimal(n), max) == (if n <= max {
            Ok::<nat, NumberError>(n)
        } else {
            Err(NumberError::TooLarge)
        }),
    decreases n,
{
    if n < 10 {
        lemma_digit(n);
        assert(decimal(n).drop_last() == Seq::<char>::empty());
        assert(digits(decimal(n).drop_last(), max) == Ok::<nat, NumberError>(0));
        assert(decimal(n).last() == digit(n));
    } else {
        lemma_digits_of_decimal(n / 10, max);
        lemma_digit((n % 10) as nat);
        assert(decimal(n).drop_last() == decimal(n / 10));
        assert(decimal(n).last() == digit(n % 10));
    }
}

/// A number is written with digits alone, behind a plus sign at most.
pub proof fn law_numbers_are_digits(s: Seq<char>, max: nat)
    requires
        number(s, max) is Ok,
    ensures
        s.len() > 0,
        number(s, max)->Ok_0 <= max,
        s[0] == '+' ==> s.len() > 1,
        forall|i: int| 0 < i < s.len() ==> is_digit(#[trigger] s[i]),
        s[0] == '+' || is_digit(s[0]),
{
    let rest = if s[0] == '+' {
        s.skip(1)
    } else {
        s
    };
    lemma_all_digits(rest, max);
    lemma_digits_bound(rest, max);
    if s[0] == '+' {
        assert forall|i: int| 0 < i < s.len() implies is_digit(#[trigger] s[i]) by {
            assert(rest[i - 1] == s[i]);
        }
    }
}

proof fn lemma_all_digits(s: Seq<char>, max: nat)
    requires
        digits(s, max) is Ok,
    ensures
        forall|i: int| 0 <= i < s.len() ==> is_digit(#[trigger] s[i]),
    decreases s.len(),
{
    if s.len() > 0 {
        lemma_all_digits(s.drop_last(), max);
        assert forall|i: int| 0 <= i < s.len() implies is_digit(#[trigger] s[i]) by {
            if i < s.len() - 1 {
                assert(s.drop_last()[i] == s[i]);
            }
        }
    }
}

/// Signed decimal text is read as its number where it fits.
pub proof fn law_signed_text_is_read_back(n: nat)
    ensures
        n <= 9223372036854775807 ==> signed_number(decimal(n)) == Ok::<int, NumberError>(n as int),
        n <= 9223372036854775808 ==> signed_number("-"@ + decimal(n)) == Ok::<int, NumberError>(
            -(n as int),
        ),
        n > 9223372036854775808 ==> signed_number("-"@ + decimal(n)) == Err::<int, _>(
            NumberError::TooSmall,
        ),
{
    reveal_strlit("-");
    lemma_digits_of_decimal(n, i64::MAX as nat);
    lemma_digits_of_decimal(n, 0x8000_0000_0000_0000);
    law_decimal_text(n);
    assert(is_digit(decimal(n)[0]));
    assert(("-"@ + decimal(n)).skip(1) == decimal(n));
}

/// A character takes at most four bytes.
pub proof fn lemma_encoded_len_bound(s: Seq<char>)
    ensures
        vstd::utf8::encode_utf8(s).len() <= 4 * s.len(),
    decreases s.len(),
{
    if s.len() > 0 {
        lemma_encoded_len_bound(s.drop_last());
        lemma_encoded_len_push(s.drop_last(), s.last());
        assert(s.drop_last().push(s.last()) == s);
    }
}

/// A text that is cut to a number of characters is its beginning, and as long as it may be.
pub proof fn law_texts_are_cut_to_characters(s: Seq<char>, n: nat)
    ensures
        first_chars(s, n).is_prefix_of(s),
        s.len() <= n ==> first_chars(s, n) == s,
        s.len() > n ==> first_chars(s, n).len() == n,
{
}

/// A text that is cut to a number of bytes is its beginning, and one character more does not fit.
pub proof fn law_texts_are_cut_to_bytes(s: Seq<char>, limit: nat)
    ensures
        fitting(s, limit).is_prefix_of(s),
        vstd::utf8::encode_utf8(fitting(s, limit)).len() <= limit,
        fitting(s, limit).len() < s.len() ==> vstd::utf8::encode_utf8(
            s.take(fitting(s, limit).len() as int + 1),
        ).len() > limit,
    decreases s.len(),
{
    if vstd::utf8::encode_utf8(s).len() > limit {
        let init = s.drop_last();
        law_texts_are_cut_to_bytes(init, limit);
        let cut = fitting(init, limit);
        assert(s.take(cut.len() as int) == init.take(cut.len() as int));
        if cut.len() < init.len() {
            assert(s.take(cut.len() as int + 1) == init.take(cut.len() as int + 1));
        } else {
            assert(s.take(cut.len() as int + 1) == s);
        }
    }
}

} // verus!
