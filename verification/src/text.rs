//! Character-level text operations used by the library's indexes and search.
use vstd::prelude::*;

verus! {

/// What std's `str::to_lowercase` gives for a string: the Unicode lowercase mapping.
pub uninterp spec fn lowercase_of(s: Seq<char>) -> Seq<char>;

/// The character with the ASCII capital letters `A` to `Z` mapped to `a` to `z`, and every
/// other character left as it is.
pub open spec fn ascii_lower(c: char) -> char {
    if 0x41 <= (c as u32) <= 0x5A {
        ((c as u32) + 32) as char
    } else {
        c
    }
}

/// The character with the ASCII small letters `a` to `z` mapped to `A` to `Z`, and every
/// other character left as it is.
pub open spec fn ascii_upper(c: char) -> char {
    if 0x61 <= (c as u32) <= 0x7A {
        ((c as u32) - 32) as char
    } else {
        c
    }
}

/// Every character of the text is ASCII.
pub open spec fn is_ascii_text(s: Seq<char>) -> bool {
    forall|i: int| 0 <= i < s.len() ==> (#[trigger] s[i] as u32) < 128
}

/// The text with its ASCII capital letters made small.
pub open spec fn ascii_lowercase(s: Seq<char>) -> Seq<char> {
    s.map_values(|c: char| ascii_lower(c))
}

/// The text with its ASCII small letters made capital.
pub open spec fn ascii_uppercase(s: Seq<char>) -> Seq<char> {
    s.map_values(|c: char| ascii_upper(c))
}

/// Calls `str::to_lowercase`; its result is named `lowercase_of` of the input. On ASCII
/// text each character maps by itself and only `A` to `Z` change, to `a` to `z` (the
/// result equals `str::to_ascii_lowercase`); beyond ASCII nothing more is claimed.
#[verifier::external_body]
pub(crate) fn to_lowercase(s: &str) -> (r: String)
    ensures
        r@ == lowercase_of(s@),
        is_ascii_text(s@) ==> r@ == ascii_lowercase(s@),
{
    s.to_lowercase()
}

/// Whether a character has the Unicode `White_Space` property, which `char::is_whitespace`
/// tests: tab, line feed, vertical tab, form feed, carriage return, space, next line,
/// no-break space, ogham space mark, en quad to hair space, line separator, paragraph
/// separator, narrow no-break space, medium mathematical space and ideographic space.
pub open spec fn white_space(c: char) -> bool {
    let u = c as u32;
    ||| 0x09 <= u <= 0x0D
    ||| u == 0x20 || u == 0x85 || u == 0xA0 || u == 0x1680
    ||| 0x2000 <= u <= 0x200A
    ||| u == 0x2028 || u == 0x2029 || u == 0x202F || u == 0x205F || u == 0x3000
}

/// Whether a character is white space.
pub(crate) fn is_white_space(c: char) -> (r: bool)
    ensures
        r == white_space(c),
{
    let u = c as u32;
    (0x09 <= u && u <= 0x0D) || u == 0x20 || u == 0x85 || u == 0xA0 || u == 0x1680 || (0x2000 <= u
        && u <= 0x200A) || u == 0x2028 || u == 0x2029 || u == 0x202F || u == 0x205F || u == 0x3000
}

/// Calls `String::push`, which appends one character to the string.
#[verifier::external_body]
pub(crate) fn push_char(s: &mut String, c: char)
    ensures
        final(s)@ == old(s)@.push(c),
{
    s.push(c)
}

/// The characters of a string, in order.
pub fn chars_of(s: &str) -> (v: Vec<char>)
    ensures
        v@ == s@,
{
    let mut v: Vec<char> = Vec::new();
    for c in it: s.chars()
        invariant
            v@.len() == it.index(),
            it.seq() == s@,
            forall|i: int| 0 <= i < it.index() ==> v@[i] == s@[i],
    {
        v.push(c);
    }
    assert(v@ =~= s@);
    v
}

/// Whether two character sequences are equal.
pub fn text_eq(a: &Vec<char>, b: &Vec<char>) -> (r: bool)
    ensures
        r == (a@ == b@),
{
    if a.len() != b.len() {
        return false;
    }
    let mut i: usize = 0;
    while i < a.len()
        invariant
            a@.len() == b@.len(),
            i <= a@.len(),
            forall|j: int| 0 <= j < i ==> a@[j] == b@[j],
        decreases a@.len() - i,
    {
        if a[i] != b[i] {
            return false;
        }
        i = i + 1;
    }
    assert(a@ =~= b@);
    true
}

/// `a` and `b` agree on their first `i` characters and `a` is smaller at position `i`
/// (either `a` ends there while `b` goes on, or its character there has a lower code point).
pub open spec fn text_lt_at(a: Seq<char>, b: Seq<char>, i: int) -> bool {
    &&& 0 <= i <= a.len()
    &&& i <= b.len()
    &&& forall|j: int| 0 <= j < i ==> a[j] == b[j]
    &&& (i == a.len() && i < b.len()) || (i < a.len() && i < b.len() && (a[i] as u32) < (
        b[i] as u32))
}

/// Lexicographic order on character sequences, comparing characters by code point:
/// `a` comes strictly before `b`.
pub open spec fn text_lt(a: Seq<char>, b: Seq<char>) -> bool {
    exists|i: int| #[trigger] text_lt_at(a, b, i)
}

/// No text comes strictly before itself.
pub proof fn lemma_text_lt_irreflexive(a: Seq<char>)
    ensures
        !text_lt(a, a),
{
}

/// Lexicographic order is transitive.
pub proof fn lemma_text_lt_transitive(a: Seq<char>, b: Seq<char>, c: Seq<char>)
    requires
        text_lt(a, b),
        text_lt(b, c),
    ensures
        text_lt(a, c),
{
    let i = choose|i: int| #[trigger] text_lt_at(a, b, i);
    let j = choose|j: int| #[trigger] text_lt_at(b, c, j);
    if i <= j {
        if i == j {
            assert(text_lt_at(a, c, i));
        } else {
            assert(b[i] == c[i]);
            assert(text_lt_at(a, c, i));
        }
    } else {
        assert(a[j] == b[j]);
        assert(text_lt_at(a, c, j));
    }
}

proof fn lemma_text_first_difference(a: Seq<char>, b: Seq<char>, k: int)
    requires
        a != b,
        0 <= k <= a.len(),
        k <= b.len(),
        forall|j: int| 0 <= j < k ==> a[j] == b[j],
    ensures
        text_lt(a, b) || text_lt(b, a),
    decreases a.len() - k,
{
    if k == a.len() && k == b.len() {
        assert(a =~= b);
    } else if k == a.len() {
        assert(text_lt_at(a, b, k));
    } else if k == b.len() {
        assert(text_lt_at(b, a, k));
    } else if a[k] != b[k] {
        let x = a[k];
        let y = b[k];
        assert((x as u32) != (y as u32)) by {
            vstd::utf8::char_u32_cast(x, x as u32);
            vstd::utf8::char_u32_cast(y, y as u32);
        }
        if (x as u32) < (y as u32) {
            assert(text_lt_at(a, b, k));
        } else {
            assert(text_lt_at(b, a, k));
        }
    } else {
        lemma_text_first_difference(a, b, k + 1);
    }
}

/// Of two different texts, one comes strictly before the other.
pub proof fn lemma_text_lt_total(a: Seq<char>, b: Seq<char>)
    requires
        a != b,
    ensures
        text_lt(a, b) || text_lt(b, a),
{
    lemma_text_first_difference(a, b, 0);
}

/// Whether `a` comes strictly before `b` in lexicographic order.
pub fn text_less(a: &Vec<char>, b: &Vec<char>) -> (r: bool)
    ensures
        r == text_lt(a@, b@),
{
    let mut i: usize = 0;
    while i < a.len() && i < b.len() && a[i] == b[i]
        invariant
            i <= a@.len(),
            i <= b@.len(),
            forall|j: int| 0 <= j < i ==> a@[j] == b@[j],
        decreases a@.len() - i,
    {
        i = i + 1;
    }
    if i == a.len() {
        if i < b.len() {
            assert(text_lt_at(a@, b@, i as int));
            return true;
        }
        assert(!text_lt(a@, b@));
        return false;
    }
    if i == b.len() {
        assert(!text_lt(a@, b@));
        return false;
    }
    let ca: u32 = a[i] as u32;
    let cb: u32 = b[i] as u32;
    if ca < cb {
        assert(text_lt_at(a@, b@, i as int));
        true
    } else {
        assert(!text_lt(a@, b@));
        false
    }
}

/// `w` occurs in `h` starting at position `i`.
pub open spec fn occurs_at(h: Seq<char>, w: Seq<char>, i: int) -> bool {
    0 <= i && i + w.len() <= h.len() && h.subrange(i, i + w.len()) == w
}

/// `w` occurs somewhere in `h` as a contiguous piece.
pub open spec fn contains_text(h: Seq<char>, w: Seq<char>) -> bool {
    exists|i: int| #[trigger] occurs_at(h, w, i)
}

/// `w` occurs in `h` exactly when, at some position of `h`, the next `w.len()` characters
/// are `w`, whatever comes before that position.
pub proof fn lemma_contains_text_is_substring(h: Seq<char>, w: Seq<char>)
    ensures
        contains_text(h, w) <==> exists|i: int|
            0 <= i && i + w.len() <= h.len() && #[trigger] h.subrange(i, i + w.len()) == w,
{
    if exists|i: int| 0 <= i && i + w.len() <= h.len() && #[trigger] h.subrange(i, i + w.len()) == w {
        let i = choose|i: int| 0 <= i && i + w.len() <= h.len() && #[trigger] h.subrange(i, i + w.len()) == w;
        assert(occurs_at(h, w, i));
    }
}

/// Whether `w` occurs in `h` as a contiguous piece.
pub fn contains(h: &Vec<char>, w: &Vec<char>) -> (r: bool)
    ensures
        r == contains_text(h@, w@),
{
    if w.len() > h.len() {
        assert forall|i: int| !occurs_at(h@, w@, i) by {}
        return false;
    }
    if w.len() == 0 {
        assert(h@.subrange(0, 0) =~= w@);
        assert(occurs_at(h@, w@, 0));
        return true;
    }
    let hl: usize = h.len();
    let last: usize = hl - w.len();
    let mut i: usize = 0;
    while i <= last
        invariant
            hl == h@.len(),
            last == h@.len() - w@.len(),
            0 < w@.len() <= h@.len(),
            i <= last + 1,
            forall|k: int| 0 <= k < i ==> !occurs_at(h@, w@, k),
        decreases last + 1 - i,
    {
        let mut j: usize = 0;
        let mut same = true;
        while j < w.len()
            invariant
                hl == h@.len(),
                last == h@.len() - w@.len(),
                0 < w@.len() <= h@.len(),
                i <= last,
                j <= w@.len(),
                same ==> forall|t: int| 0 <= t < j ==> h@[i + t] == w@[t],
                !same ==> !occurs_at(h@, w@, i as int),
            decreases w@.len() - j,
        {
            if same && h[i + j] != w[j] {
                same = false;
                assert(h@.subrange(i as int, i + w@.len())[j as int] != w@[j as int]);
            }
            j = j + 1;
        }
        if same {
            assert(h@.subrange(i as int, i + w@.len()) =~= w@);
            assert(occurs_at(h@, w@, i as int));
            return true;
        }
        i = i + 1;
    }
    assert forall|k: int| !occurs_at(h@, w@, k) by {}
    false
}

/// The words of a text: its maximal runs of characters that are not white space, in order.
pub open spec fn words_of(s: Seq<char>) -> Seq<Seq<char>>
    decreases s.len(),
{
    if s.len() == 0 {
        Seq::empty()
    } else {
        let rest = words_of(s.drop_last());
        let c = s.last();
        if white_space(c) {
            rest
        } else if s.len() >= 2 && !white_space(s[s.len() - 2]) {
            rest.update(rest.len() - 1, rest.last().push(c))
        } else {
            rest.push(seq![c])
        }
    }
}

/// A text that ends in a character other than white space has at least one word.
proof fn lemma_words_nonempty(s: Seq<char>)
    requires
        s.len() > 0,
        !white_space(s.last()),
    ensures
        words_of(s).len() > 0,
    decreases s.len(),
{
    if s.len() >= 2 && !white_space(s[s.len() - 2]) {
        lemma_words_nonempty(s.drop_last());
    }
}

/// Every word is non-empty and holds no white space.
pub proof fn lemma_words_are_runs(s: Seq<char>)
    ensures
        forall|i: int| 0 <= i < words_of(s).len() ==> (#[trigger] words_of(s)[i]).len() > 0,
        forall|i: int, j: int|
            0 <= i < words_of(s).len() && 0 <= j < words_of(s)[i].len() ==> !white_space(#[trigger] words_of(s)[i][j]),
    decreases s.len(),
{
    if s.len() > 0 {
        let p = s.drop_last();
        lemma_words_are_runs(p);
        let c = s.last();
        let r = words_of(p);
        if !white_space(c) && s.len() >= 2 && !white_space(s[s.len() - 2]) {
            assert(p.last() == s[s.len() - 2]);
            lemma_words_nonempty(p);
            let w = words_of(s);
            assert forall|i: int, j: int|
                0 <= i < w.len() && 0 <= j < w[i].len() implies !white_space(#[trigger] w[i][j]) by {
                if i == r.len() - 1 {
                    if j < r[i].len() {
                        assert(w[i][j] == r[i][j]);
                    }
                } else {
                    assert(w[i] == r[i]);
                }
            }
        } else if !white_space(c) {
            let w = words_of(s);
            assert forall|i: int, j: int|
                0 <= i < w.len() && 0 <= j < w[i].len() implies !white_space(#[trigger] w[i][j]) by {
                if i < r.len() {
                    assert(w[i] == r[i]);
                }
            }
        }
    }
}

/// A non-empty text without white space is one word.
pub proof fn lemma_words_of_unbroken(s: Seq<char>)
    requires
        s.len() > 0,
        forall|i: int| 0 <= i < s.len() ==> !white_space(#[trigger] s[i]),
    ensures
        words_of(s) == seq![s],
    decreases s.len(),
{
    let p = s.drop_last();
    if p.len() == 0 {
        assert(words_of(p) =~= Seq::<Seq<char>>::empty());
        assert(s =~= seq![s.last()]);
    } else {
        lemma_words_of_unbroken(p);
        assert(!white_space(s[s.len() - 2]));
        assert(!white_space(s.last()));
        assert(p.push(s.last()) =~= s);
        assert(words_of(s) =~= seq![s]);
    }
}

/// Lexicographic order: where two texts first differ, a text that ends there comes first
/// if the other goes on, and otherwise the one with the lower code point there comes first.
pub proof fn lemma_text_lt_first_difference(a: Seq<char>, b: Seq<char>, i: int)
    requires
        0 <= i <= a.len(),
        i <= b.len(),
        forall|j: int| 0 <= j < i ==> a[j] == b[j],
        i == a.len() || i == b.len() || a[i] != b[i],
    ensures
        text_lt(a, b) == ((i == a.len() && i < b.len()) || (i < a.len() && i < b.len() && (a[i] as u32) < (
            b[i] as u32))),
{
    if (i == a.len() && i < b.len()) || (i < a.len() && i < b.len() && (a[i] as u32) < (b[i] as u32)) {
        assert(text_lt_at(a, b, i));
    }
    if text_lt(a, b) {
        let k = choose|k: int| #[trigger] text_lt_at(a, b, k);
        if k < i {
        } else if k > i {
            assert(a[i] == b[i]);
        }
    }
}

/// A text made only of white space has no words.
pub proof fn lemma_words_of_blank(s: Seq<char>)
    requires
        forall|i: int| 0 <= i < s.len() ==> white_space(#[trigger] s[i]),
    ensures
        words_of(s) == Seq::<Seq<char>>::empty(),
    decreases s.len(),
{
    if s.len() > 0 {
        lemma_words_of_blank(s.drop_last());
        assert(white_space(s[s.len() - 1]));
    }
}

/// The words of two texts joined by a space are the words of the first, then those of the
/// second.
pub proof fn lemma_words_of_join(a: Seq<char>, b: Seq<char>)
    ensures
        words_of(a + seq![' '] + b) == words_of(a) + words_of(b),
    decreases b.len(),
{
    let j = a + seq![' '] + b;
    if b.len() == 0 {
        assert(j.drop_last() =~= a);
        assert(words_of(b) =~= Seq::<Seq<char>>::empty());
        assert(words_of(a) + words_of(b) =~= words_of(a));
    } else {
        let b1 = b.drop_last();
        lemma_words_of_join(a, b1);
        let j1 = a + seq![' '] + b1;
        assert(j.drop_last() =~= j1);
        assert(j.last() == b.last());
        let x = words_of(a);
        let y1 = words_of(b1);
        let c = b.last();
        if white_space(c) {
        } else if b.len() >= 2 && !white_space(b[b.len() - 2]) {
            assert(j[j.len() - 2] == b[b.len() - 2]);
            lemma_words_nonempty(b1);
            assert(b1.last() == b[b.len() - 2]);
            assert((x + y1).update((x + y1).len() - 1, (x + y1).last().push(c)) =~= x + y1.update(
                y1.len() - 1,
                y1.last().push(c),
            ));
        } else {
            if b.len() >= 2 {
                assert(j[j.len() - 2] == b[b.len() - 2]);
            } else {
                assert(j[j.len() - 2] == ' ');
            }
            assert((x + y1).push(seq![c]) =~= x + y1.push(seq![c]));
        }
    }
}

/// Making ASCII letters small after making them capital makes them small.
pub proof fn lemma_ascii_lower_of_upper(s: Seq<char>)
    ensures
        ascii_lowercase(ascii_uppercase(s)) == ascii_lowercase(s),
        is_ascii_text(s) ==> is_ascii_text(ascii_uppercase(s)),
{
    assert forall|i: int| 0 <= i < s.len() implies ascii_lower(ascii_upper(#[trigger] s[i])) == ascii_lower(s[i]) by {
        let c = s[i];
        let u = c as u32;
        if 0x61 <= u <= 0x7A {
            let d = (u - 32) as char;
            assert(d as u32 == u - 32);
            assert(((d as u32) + 32) as char == c) by {
                vstd::utf8::char_u32_cast(c, u);
            }
        }
    }
    assert(ascii_lowercase(ascii_uppercase(s)) =~= ascii_lowercase(s));
    if is_ascii_text(s) {
        assert forall|i: int| 0 <= i < ascii_uppercase(s).len() implies (#[trigger] ascii_uppercase(s)[i] as u32) < 128 by {
            let u = s[i] as u32;
            assert((s[i] as u32) < 128);
            if 0x61 <= u <= 0x7A {
                assert(((u - 32) as char) as u32 == u - 32);
            }
        }
    }
}

/// Making ASCII letters small keeps white space, and a space between two texts.
pub proof fn lemma_ascii_lowercase_join(a: Seq<char>, b: Seq<char>)
    ensures
        ascii_lowercase(a + seq![' '] + b) == ascii_lowercase(a) + seq![' '] + ascii_lowercase(b),
        is_ascii_text(a) && is_ascii_text(b) ==> is_ascii_text(a + seq![' '] + b),
{
    assert(ascii_lowercase(a + seq![' '] + b) =~= ascii_lowercase(a) + seq![' '] + ascii_lowercase(b));
    if is_ascii_text(a) && is_ascii_text(b) {
        let j = a + seq![' '] + b;
        assert forall|i: int| 0 <= i < j.len() implies (#[trigger] j[i] as u32) < 128 by {
            if i < a.len() {
                assert(j[i] == a[i]);
            } else if i > a.len() {
                assert(j[i] == b[i - a.len() - 1]);
            }
        }
    }
}

/// Making ASCII letters small keeps a text of white space as it is.
pub proof fn lemma_ascii_lowercase_blank(s: Seq<char>)
    requires
        forall|i: int| 0 <= i < s.len() ==> white_space(#[trigger] s[i]),
    ensures
        ascii_lowercase(s) == s,
{
    assert(ascii_lowercase(s) =~= s);
}

/// The words of a text, as `str::split_whitespace` cuts them.
pub fn words(s: &Vec<char>) -> (w: Vec<Vec<char>>)
    ensures
        w@.map_values(|v: Vec<char>| v@) == words_of(s@),
{
    let mut w: Vec<Vec<char>> = Vec::new();
    let mut i: usize = 0;
    while i < s.len()
        invariant
            i <= s@.len(),
            w@.map_values(|v: Vec<char>| v@) == words_of(s@.take(i as int)),
        decreases s@.len() - i,
    {
        let c = s[i];
        let ghost pre = s@.take(i as int);
        let ghost next = s@.take(i + 1);
        assert(next.drop_last() =~= pre);
        if is_white_space(c) {
        } else if i > 0 && !is_white_space(s[i - 1]) {
            proof {
                assert(pre.last() == s@[i - 1]);
                lemma_words_nonempty(pre);
            }
            let mut cur = w.pop().unwrap();
            cur.push(c);
            w.push(cur);
            assert(w@.map_values(|v: Vec<char>| v@) =~= words_of(next));
        } else {
            let mut fresh: Vec<char> = Vec::new();
            fresh.push(c);
            assert(fresh@ =~= seq![c]);
            assert(next.last() == c);
            assert(i > 0 ==> next[i - 1] == s@[i - 1]);
            w.push(fresh);
            assert(w@.map_values(|v: Vec<char>| v@) =~= words_of(next));
        }
        i = i + 1;
    }
    assert(s@.take(s@.len() as int) =~= s@);
    w
}

/// The character of a decimal digit.
pub open spec fn digit_char(d: nat) -> char {
    (d + 48) as char
}

/// The decimal representation of a number, without sign or leading zeros.
pub open spec fn decimal(n: nat) -> Seq<char>
    decreases n,
{
    if n < 10 {
        seq![digit_char(n)]
    } else {
        decimal(n / 10).push(digit_char(n % 10))
    }
}

/// The number that a text of decimal digits stands for, most significant digit first.
pub open spec fn decimal_value(s: Seq<char>) -> int
    decreases s.len(),
{
    if s.len() == 0 {
        0
    } else {
        decimal_value(s.drop_last()) * 10 + ((s.last() as u32) - 48)
    }
}

/// The decimal representation of `n` is a non-empty text of the digits `0` to `9` that
/// reads back as `n`, and it starts with `0` only when `n` is zero.
pub proof fn lemma_decimal_reads_back(n: nat)
    ensures
        decimal(n).len() > 0,
        forall|i: int| 0 <= i < decimal(n).len() ==> 48 <= (#[trigger] decimal(n)[i] as u32) <= 57,
        decimal_value(decimal(n)) == n,
        decimal(n)[0] == '0' ==> n == 0,
    decreases n,
{
    if n < 10 {
        assert(((n + 48) as char) as u32 == n + 48);
        assert(decimal(n).drop_last() =~= Seq::<char>::empty());
        assert(decimal(n).last() == digit_char(n));
        assert(decimal_value(decimal(n)) == decimal_value(Seq::<char>::empty()) * 10 + (n + 48 - 48));
    } else {
        let m = n / 10;
        lemma_decimal_reads_back(m);
        let d = decimal(n);
        let p = decimal(m);
        assert(d.drop_last() =~= p);
        assert(((n % 10 + 48) as char) as u32 == n % 10 + 48);
        assert(d.last() == digit_char(n % 10));
        assert(decimal_value(d) == decimal_value(p) * 10 + (n % 10));
        vstd::arithmetic::div_mod::lemma_fundamental_div_mod(n as int, 10);
        assert forall|i: int| 0 <= i < d.len() implies 48 <= (#[trigger] d[i] as u32) <= 57 by {
            if i < p.len() {
                assert(d[i] == p[i]);
            }
        }
        assert(d[0] == p[0]);
        assert(m > 0);
    }
}

/// Appends the decimal representation of `n` to `s`.
pub fn push_decimal(s: &mut String, n: u64)
    ensures
        final(s)@ == old(s)@ + decimal(n as nat),
    decreases n,
{
    if n >= 10 {
        push_decimal(s, n / 10);
    }
    let d: u8 = (n % 10) as u8;
    let c: char = (d + 48) as char;
    assert(c == digit_char((n % 10) as nat));
    push_char(s, c);
    assert(s@ =~= old(s)@ + decimal(n as nat));
}

/// The decimal representation of `n`.
pub fn decimal_string(n: u64) -> (s: String)
    ensures
        s@ == decimal(n as nat),
{
    let mut s = String::new();
    push_decimal(&mut s, n);
    assert(s@ =~= decimal(n as nat));
    s
}

} // verus!
