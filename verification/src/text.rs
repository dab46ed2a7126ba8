//! Character-level string utilities shared by the scanner and the report
//! renderer, with their mathematical counterparts on `Seq<char>`.

use vstd::prelude::*;
use vstd::string::*;

verus! {

/// Position of the first occurrence of `target` in `s` at or after `from`,
/// or `s.len()` when there is none.
pub open spec fn find_from(s: Seq<char>, from: int, target: char) -> int
    decreases s.len() - from,
{
    if from < 0 || from >= s.len() {
        s.len() as int
    } else if s[from] == target {
        from
    } else {
        find_from(s, from + 1, target)
    }
}

pub proof fn lemma_find_from_bounds(s: Seq<char>, from: int, target: char)
    requires
        0 <= from <= s.len(),
    ensures
        from <= find_from(s, from, target) <= s.len(),
        forall|j: int| from <= j < find_from(s, from, target) ==> s[j] != target,
        find_from(s, from, target) < s.len() ==> s[find_from(s, from, target)] == target,
    decreases s.len() - from,
{
    if from < s.len() && s[from] != target {
        lemma_find_from_bounds(s, from + 1, target);
    }
}

/// First occurrence of `target` in `s` at or after char position `from`,
/// as an executable search.
pub fn find_char_from(s: &str, from: usize, target: char) -> (r: usize)
    requires
        from <= s@.len(),
    ensures
        r == find_from(s@, from as int, target),
        from <= r <= s@.len(),
{
    let len = s.unicode_len();
    let mut i = from;
    while i < len
        invariant
            from <= i <= len,
            len == s@.len(),
            find_from(s@, from as int, target) == find_from(s@, i as int, target),
        decreases len - i,
    {
        if s.get_char(i) == target {
            return i;
        }
        i = i + 1;
    }
    i
}

/// `s` with leading spaces removed.
pub open spec fn trim_front(s: Seq<char>) -> Seq<char>
    decreases s.len(),
{
    if s.len() > 0 && s[0] == ' ' {
        trim_front(s.subrange(1, s.len() as int))
    } else {
        s
    }
}

/// `s` with trailing spaces removed.
pub open spec fn trim_back(s: Seq<char>) -> Seq<char>
    decreases s.len(),
{
    if s.len() > 0 && s[s.len() - 1] == ' ' {
        trim_back(s.drop_last())
    } else {
        s
    }
}

/// `s` with both leading and trailing spaces removed.
pub open spec fn trim(s: Seq<char>) -> Seq<char> {
    trim_back(trim_front(s))
}

pub proof fn lemma_trim_front_range(s: Seq<char>, a: int)
    requires
        0 <= a <= s.len(),
        forall|j: int| 0 <= j < a ==> s[j] == ' ',
        a < s.len() ==> s[a] != ' ',
    ensures
        trim_front(s) == s.subrange(a, s.len() as int),
    decreases a,
{
    if a == 0 {
        assert(s.subrange(0, s.len() as int) =~= s);
    } else {
        let tail = s.subrange(1, s.len() as int);
        lemma_trim_front_range(tail, a - 1);
        assert(tail.subrange(a - 1, tail.len() as int) =~= s.subrange(a, s.len() as int));
    }
}

pub proof fn lemma_trim_back_range(s: Seq<char>, b: int)
    requires
        0 <= b <= s.len(),
        forall|j: int| b <= j < s.len() ==> s[j] == ' ',
        b > 0 ==> s[b - 1] != ' ',
    ensures
        trim_back(s) == s.subrange(0, b),
    decreases s.len() - b,
{
    if b == s.len() {
        if s.len() > 0 {
            assert(s.subrange(0, s.len() as int) =~= s);
        } else {
            assert(s.subrange(0, 0) =~= s);
        }
    } else {
        lemma_trim_back_range(s.drop_last(), b);
        assert(s.drop_last().subrange(0, b) =~= s.subrange(0, b));
    }
}

/// The substring of `s` between char positions `from` and `to`, with leading
/// and trailing spaces removed.
pub fn substring_trimmed(s: &str, from: usize, to: usize) -> (r: String)
    requires
        from <= to <= s@.len(),
    ensures
        r@ == trim(s@.subrange(from as int, to as int)),
{
    let mut a = from;
    let mut b = to;
    while a < b && s.get_char(a) == ' '
        invariant
            from <= a <= b <= s@.len(),
            b == to,
            forall|j: int| from <= j < a ==> s@[j] == ' ',
        decreases b - a,
    {
        a = a + 1;
    }
    while b > a && s.get_char(b - 1) == ' '
        invariant
            from <= a <= b <= to <= s@.len(),
            forall|j: int| from <= j < a ==> s@[j] == ' ',
            forall|j: int| b <= j < to ==> s@[j] == ' ',
            a == b || s@[a as int] != ' ',
        decreases b,
    {
        b = b - 1;
    }
    proof {
        let inner = s@.subrange(from as int, to as int);
        lemma_trim_front_range(inner, a - from);
        assert(inner.subrange(a - from, inner.len() as int) =~= s@.subrange(
            a as int,
            to as int,
        ));
        let tf = s@.subrange(a as int, to as int);
        lemma_trim_back_range(tf, b - a);
        assert(tf.subrange(0, b - a) =~= s@.subrange(a as int, b as int));
    }
    s.substring_char(a, b).to_owned()
}

/// Whether `p` is a prefix of `s`.
pub open spec fn has_prefix(s: Seq<char>, p: Seq<char>) -> bool {
    p.len() <= s.len() && s.subrange(0, p.len() as int) == p
}

/// Executable prefix test on character views.
pub fn str_has_prefix(s: &str, p: &str) -> (r: bool)
    ensures
        r == has_prefix(s@, p@),
{
    let plen = p.unicode_len();
    let slen = s.unicode_len();
    if plen > slen {
        return false;
    }
    let mut i: usize = 0;
    while i < plen
        invariant
            i <= plen <= slen,
            plen == p@.len(),
            slen == s@.len(),
            forall|j: int| 0 <= j < i ==> s@[j] == p@[j],
        decreases plen - i,
    {
        if s.get_char(i) != p.get_char(i) {
            proof {
                assert(s@.subrange(0, p@.len() as int)[i as int] == s@[i as int]);
            }
            return false;
        }
        i = i + 1;
    }
    proof {
        assert(s@.subrange(0, p@.len() as int) =~= p@);
    }
    true
}

/// Executable equality of two string slices, expressed over their views.
pub fn str_eq(a: &str, b: &str) -> (r: bool)
    ensures
        r == (a@ == b@),
{
    let alen = a.unicode_len();
    let blen = b.unicode_len();
    if alen != blen {
        return false;
    }
    let mut i: usize = 0;
    while i < alen
        invariant
            i <= alen,
            alen == a@.len(),
            alen == b@.len(),
            forall|j: int| 0 <= j < i ==> a@[j] == b@[j],
        decreases alen - i,
    {
        if a.get_char(i) != b.get_char(i) {
            return false;
        }
        i = i + 1;
    }
    proof {
        assert(a@ =~= b@);
    }
    true
}

/// Lexicographic (code-point) order on character sequences, strict. It
/// agrees with the byte order of the UTF-8 encodings.
pub open spec fn lex_lt(a: Seq<char>, b: Seq<char>) -> bool
    decreases a.len(),
{
    if b.len() == 0 {
        false
    } else if a.len() == 0 {
        true
    } else if a[0] != b[0] {
        (a[0] as u32) < (b[0] as u32)
    } else {
        lex_lt(a.drop_first(), b.drop_first())
    }
}

/// Executable strict lexicographic comparison of two string slices.
pub fn str_lt(a: &str, b: &str) -> (r: bool)
    ensures
        r == lex_lt(a@, b@),
{
    let alen = a.unicode_len();
    let blen = b.unicode_len();
    proof {
        assert(a@.skip(0) =~= a@);
        assert(b@.skip(0) =~= b@);
    }
    let mut i: usize = 0;
    while i < alen && i < blen
        invariant
            i <= alen,
            i <= blen,
            alen == a@.len(),
            blen == b@.len(),
            lex_lt(a@, b@) == lex_lt(a@.skip(i as int), b@.skip(i as int)),
        decreases alen - i,
    {
        let ca = a.get_char(i);
        let cb = b.get_char(i);
        proof {
            assert(a@.skip(i as int)[0] == a@[i as int]);
            assert(b@.skip(i as int)[0] == b@[i as int]);
            assert(a@.skip(i as int).drop_first() =~= a@.skip(i as int + 1));
            assert(b@.skip(i as int).drop_first() =~= b@.skip(i as int + 1));
        }
        if ca != cb {
            return (ca as u32) < (cb as u32);
        }
        i = i + 1;
    }
    proof {
        assert(a@.skip(i as int).len() == a@.len() - i);
        assert(b@.skip(i as int).len() == b@.len() - i);
    }
    i < blen
}

/// The character of one decimal digit.
pub open spec fn dec_digit(d: int) -> char {
    if d == 0 {
        '0'
    } else if d == 1 {
        '1'
    } else if d == 2 {
        '2'
    } else if d == 3 {
        '3'
    } else if d == 4 {
        '4'
    } else if d == 5 {
        '5'
    } else if d == 6 {
        '6'
    } else if d == 7 {
        '7'
    } else if d == 8 {
        '8'
    } else {
        '9'
    }
}

/// The decimal rendering of a non-negative integer, without leading zeros
/// (a single zero for zero itself).
pub open spec fn dec_str(n: int) -> Seq<char>
    decreases n,
    when n >= 0
{
    if n < 10 {
        seq![dec_digit(n)]
    } else {
        dec_str(n / 10).push(dec_digit(n % 10))
    }
}

fn digit_str(d: usize) -> (r: &'static str)
    requires
        d < 10,
    ensures
        r@ == seq![dec_digit(d as int)],
{
    proof {
        reveal_strlit("0");
        reveal_strlit("1");
        reveal_strlit("2");
        reveal_strlit("3");
        reveal_strlit("4");
        reveal_strlit("5");
        reveal_strlit("6");
        reveal_strlit("7");
        reveal_strlit("8");
        reveal_strlit("9");
    }
    let r: &'static str = if d == 0 {
        "0"
    } else if d == 1 {
        "1"
    } else if d == 2 {
        "2"
    } else if d == 3 {
        "3"
    } else if d == 4 {
        "4"
    } else if d == 5 {
        "5"
    } else if d == 6 {
        "6"
    } else if d == 7 {
        "7"
    } else if d == 8 {
        "8"
    } else {
        "9"
    };
    proof {
        assert(r@ =~= seq![dec_digit(d as int)]);
    }
    r
}

/// A non-negative integer rendered in decimal.
pub fn usize_to_string(n: usize) -> (r: String)
    ensures
        r@ == dec_str(n as int),
    decreases n,
{
    if n < 10 {
        digit_str(n).to_owned()
    } else {
        let mut r = usize_to_string(n / 10);
        r.append(digit_str(n % 10));
        proof {
            assert(dec_str((n as int) / 10).push(dec_digit((n as int) % 10)) =~= dec_str(
                (n as int) / 10,
            ) + seq![dec_digit((n as int) % 10)]);
        }
        r
    }
}

/// A lower-case ASCII letter mapped to its upper-case form; every other
/// character unchanged.
pub open spec fn upper_char(c: char) -> char {
    if 97 <= c as u32 && c as u32 <= 122 {
        (((c as u32) - 32) as u32) as char
    } else {
        c
    }
}

/// Executable ASCII upper-casing of one character.
pub fn to_upper_char(c: char) -> (r: char)
    ensures
        r == upper_char(c),
{
    let u = c as u32;
    if 97 <= u && u <= 122 {
        ((u - 32) as u8) as char
    } else {
        c
    }
}

/// Relies on std's `String::push`: it appends exactly the given character
/// to the end of the string.
#[verifier::external_body]
pub fn push_char(s: &mut String, c: char)
    ensures
        final(s)@ == old(s)@.push(c),
{
    s.push(c);
}

pub proof fn lemma_lex_lt_irrefl(a: Seq<char>)
    ensures
        !lex_lt(a, a),
    decreases a.len(),
{
    if a.len() > 0 {
        lemma_lex_lt_irrefl(a.drop_first());
    }
}

pub proof fn lemma_lex_lt_trans(a: Seq<char>, b: Seq<char>, c: Seq<char>)
    requires
        lex_lt(a, b),
        lex_lt(b, c),
    ensures
        lex_lt(a, c),
    decreases a.len(),
{
    if a.len() > 0 && b.len() > 0 && c.len() > 0 && a[0] == b[0] && b[0] == c[0] {
        lemma_lex_lt_trans(a.drop_first(), b.drop_first(), c.drop_first());
    }
}

pub proof fn lemma_lex_lt_connected(a: Seq<char>, b: Seq<char>)
    requires
        a != b,
    ensures
        lex_lt(a, b) || lex_lt(b, a),
    decreases a.len(),
{
    if a.len() == 0 && b.len() == 0 {
        assert(a =~= b);
    } else if a.len() > 0 && b.len() > 0 && a[0] == b[0] {
        assert(a.drop_first() != b.drop_first()) by {
            if a.drop_first() == b.drop_first() {
                assert(a.drop_first().len() == b.drop_first().len());
                assert(a.len() == b.len());
                assert forall|i: int| 0 <= i < a.len() implies a[i] == b[i] by {
                    if i > 0 {
                        assert(a[i] == a.drop_first()[i - 1]);
                        assert(b[i] == b.drop_first()[i - 1]);
                    }
                }
                assert(a =~= b);
            }
        }
        lemma_lex_lt_connected(a.drop_first(), b.drop_first());
    } else if a.len() > 0 && b.len() > 0 {
        let ua = a[0] as u32;
        let ub = b[0] as u32;
        vstd::utf8::char_u32_cast(a[0], ua);
        vstd::utf8::char_u32_cast(b[0], ub);
        assert(ua != ub);
    }
}

proof fn lemma_trim_front_first(s: Seq<char>)
    ensures
        trim_front(s).len() > 0 ==> trim_front(s)[0] != ' ',
    decreases s.len(),
{
    if s.len() > 0 && s[0] == ' ' {
        lemma_trim_front_first(s.subrange(1, s.len() as int));
    }
}

proof fn lemma_trim_back_last(s: Seq<char>)
    ensures
        trim_back(s).len() > 0 ==> trim_back(s)[trim_back(s).len() - 1] != ' ',
    decreases s.len(),
{
    if s.len() > 0 && s[s.len() - 1] == ' ' {
        lemma_trim_back_last(s.drop_last());
    }
}

proof fn lemma_trim_back_keeps_first(s: Seq<char>)
    ensures
        trim_back(s).len() > 0 ==> s.len() > 0 && trim_back(s)[0] == s[0],
    decreases s.len(),
{
    if s.len() > 0 && s[s.len() - 1] == ' ' {
        lemma_trim_back_keeps_first(s.drop_last());
    }
}

/// A trimmed text never begins or ends with a space.
pub proof fn lemma_trim_edges(s: Seq<char>)
    ensures
        trim(s).len() > 0 ==> trim(s)[0] != ' ',
        trim(s).len() > 0 ==> trim(s)[trim(s).len() - 1] != ' ',
{
    lemma_trim_front_first(s);
    lemma_trim_back_last(trim_front(s));
    lemma_trim_back_keeps_first(trim_front(s));
}

proof fn lemma_trim_front_excludes(s: Seq<char>, c: char)
    requires
        forall|i: int| 0 <= i < s.len() ==> s[i] != c,
    ensures
        forall|i: int| 0 <= i < trim_front(s).len() ==> trim_front(s)[i] != c,
    decreases s.len(),
{
    if s.len() > 0 && s[0] == ' ' {
        let tail = s.subrange(1, s.len() as int);
        assert forall|i: int| 0 <= i < tail.len() implies tail[i] != c by {
            assert(tail[i] == s[i + 1]);
        }
        lemma_trim_front_excludes(tail, c);
        assert(trim_front(s) == trim_front(tail));
        assert forall|i: int| 0 <= i < trim_front(s).len() implies trim_front(s)[i] != c by {
            assert(trim_front(tail)[i] != c);
        }
    }
}

proof fn lemma_trim_back_excludes(s: Seq<char>, c: char)
    requires
        forall|i: int| 0 <= i < s.len() ==> s[i] != c,
    ensures
        forall|i: int| 0 <= i < trim_back(s).len() ==> trim_back(s)[i] != c,
    decreases s.len(),
{
    if s.len() > 0 && s[s.len() - 1] == ' ' {
        let head = s.drop_last();
        assert forall|i: int| 0 <= i < head.len() implies head[i] != c by {
            assert(head[i] == s[i]);
        }
        lemma_trim_back_excludes(head, c);
        assert(trim_back(s) == trim_back(head));
        assert forall|i: int| 0 <= i < trim_back(s).len() implies trim_back(s)[i] != c by {
            assert(trim_back(head)[i] != c);
        }
    }
}

/// A character absent from a text is absent from its trimming too.
pub proof fn lemma_trim_excludes(s: Seq<char>, c: char)
    requires
        forall|i: int| 0 <= i < s.len() ==> s[i] != c,
    ensures
        forall|i: int| 0 <= i < trim(s).len() ==> trim(s)[i] != c,
{
    lemma_trim_front_excludes(s, c);
    lemma_trim_back_excludes(trim_front(s), c);
}


/// Whether a character is ASCII whitespace: space, tab, line feed,
/// vertical tab, form feed or carriage return.
pub open spec fn is_ascii_ws(c: char) -> bool {
    c == ' ' || c == '\t' || c == '\n' || c == '\u{B}' || c == '\u{C}' || c == '\r'
}

/// Executable test for [`is_ascii_ws`].
pub fn ascii_ws(c: char) -> (r: bool)
    ensures
        r == is_ascii_ws(c),
{
    c == ' ' || c == '\t' || c == '\n' || c == '\u{B}' || c == '\u{C}' || c == '\r'
}

/// `s` with leading ASCII whitespace removed.
pub open spec fn trim_front_ws(s: Seq<char>) -> Seq<char>
    decreases s.len(),
{
    if s.len() > 0 && is_ascii_ws(s[0]) {
        trim_front_ws(s.subrange(1, s.len() as int))
    } else {
        s
    }
}

/// `s` with trailing ASCII whitespace removed.
pub open spec fn trim_back_ws(s: Seq<char>) -> Seq<char>
    decreases s.len(),
{
    if s.len() > 0 && is_ascii_ws(s[s.len() - 1]) {
        trim_back_ws(s.drop_last())
    } else {
        s
    }
}

/// `s` with ASCII whitespace removed from both ends.
pub open spec fn trim_ws(s: Seq<char>) -> Seq<char> {
    trim_back_ws(trim_front_ws(s))
}

pub proof fn lemma_trim_front_ws_range(s: Seq<char>, a: int)
    requires
        0 <= a <= s.len(),
        forall|j: int| 0 <= j < a ==> is_ascii_ws(s[j]),
        a < s.len() ==> !is_ascii_ws(s[a]),
    ensures
        trim_front_ws(s) == s.subrange(a, s.len() as int),
    decreases a,
{
    if a == 0 {
        assert(s.subrange(0, s.len() as int) =~= s);
    } else {
        let tail = s.subrange(1, s.len() as int);
        lemma_trim_front_ws_range(tail, a - 1);
        assert(tail.subrange(a - 1, tail.len() as int) =~= s.subrange(a, s.len() as int));
    }
}

pub proof fn lemma_trim_back_ws_range(s: Seq<char>, b: int)
    requires
        0 <= b <= s.len(),
        forall|j: int| b <= j < s.len() ==> is_ascii_ws(s[j]),
        b > 0 ==> !is_ascii_ws(s[b - 1]),
    ensures
        trim_back_ws(s) == s.subrange(0, b),
    decreases s.len() - b,
{
    if b == s.len() {
        if s.len() > 0 {
            assert(s.subrange(0, s.len() as int) =~= s);
        } else {
            assert(s.subrange(0, 0) =~= s);
        }
    } else {
        lemma_trim_back_ws_range(s.drop_last(), b);
        assert(s.drop_last().subrange(0, b) =~= s.subrange(0, b));
    }
}

/// The substring of `s` between char positions `from` and `to`, with
/// leading and trailing ASCII whitespace removed.
pub fn substring_trimmed_ws(s: &str, from: usize, to: usize) -> (r: String)
    requires
        from <= to <= s@.len(),
    ensures
        r@ == trim_ws(s@.subrange(from as int, to as int)),
{
    let mut a = from;
    let mut b = to;
    while a < b && ascii_ws(s.get_char(a))
        invariant
            from <= a <= b <= s@.len(),
            b == to,
            forall|j: int| from <= j < a ==> is_ascii_ws(s@[j]),
        decreases b - a,
    {
        a = a + 1;
    }
    while b > a && ascii_ws(s.get_char(b - 1))
        invariant
            from <= a <= b <= to <= s@.len(),
            forall|j: int| from <= j < a ==> is_ascii_ws(s@[j]),
            forall|j: int| b <= j < to ==> is_ascii_ws(s@[j]),
            a == b || !is_ascii_ws(s@[a as int]),
        decreases b,
    {
        b = b - 1;
    }
    proof {
        let inner = s@.subrange(from as int, to as int);
        lemma_trim_front_ws_range(inner, a - from);
        assert(inner.subrange(a - from, inner.len() as int) =~= s@.subrange(
            a as int,
            to as int,
        ));
        let tf = s@.subrange(a as int, to as int);
        lemma_trim_back_ws_range(tf, b - a);
        assert(tf.subrange(0, b - a) =~= s@.subrange(a as int, b as int));
    }
    s.substring_char(a, b).to_owned()
}

} // verus!
