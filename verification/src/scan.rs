//! Lines, fields and numbers in text.

use vstd::prelude::*;

verus! {

/// The characters of a text.
pub fn chars_of(text: &str) -> (r: Vec<char>)
    ensures
        r@ == text@,
{
    let mut r: Vec<char> = Vec::new();
    for c in it: text.chars()
        invariant
            r@ == it.seq().take(it.index() as int),
            it.seq() == text@,
    {
        r.push(c);
        proof { assert(r@ =~= it.seq().take(it.index() + 1)); }
    }
    proof { assert(r@ =~= text@); }
    r
}

/// `String::from_iter`: the text of these characters, in order.
#[verifier::external_body]
fn collect_text(v: &Vec<char>) -> (r: String)
    ensures
        r@ == v@,
{
    String::from_iter(v.iter())
}

/// The text between two places.
pub fn text_between(s: &Vec<char>, a: usize, b: usize) -> (r: String)
    requires
        a <= b <= s@.len(),
    ensures
        r@ == s@.subrange(a as int, b as int),
{
    let mut v: Vec<char> = Vec::new();
    let mut i: usize = a;
    while i < b
        invariant
            a <= i <= b <= s@.len(),
            v@ == s@.subrange(a as int, i as int),
        decreases b - i,
    {
        v.push(s[i]);
        i += 1;
        proof { assert(v@ =~= s@.subrange(a as int, i as int)); }
    }
    collect_text(&v)
}

/// The first place of a character from `k` on; the end without one.
pub open spec fn place_of(s: Seq<char>, c: char, k: int) -> int
    decreases s.len() - k,
{
    if k < 0 || k >= s.len() {
        s.len() as int
    } else if s[k] == c {
        k
    } else {
        place_of(s, c, k + 1)
    }
}

pub proof fn lemma_place_of(s: Seq<char>, c: char, k: int)
    requires
        0 <= k <= s.len(),
    ensures
        k <= place_of(s, c, k) <= s.len(),
    decreases s.len() - k,
{
    if k < s.len() && s[k] != c {
        lemma_place_of(s, c, k + 1);
    }
}

fn find(s: &Vec<char>, c: char, k: usize, end: usize) -> (r: usize)
    requires
        k <= end <= s@.len(),
    ensures
        r == place_of(s@.take(end as int), c, k as int),
        k <= r <= end,
{
    let ghost t = s@.take(end as int);
    let mut i: usize = k;
    while i < end
        invariant
            k <= i <= end <= s@.len(),
            t == s@.take(end as int),
            place_of(t, c, k as int) == place_of(t, c, i as int),
        decreases end - i,
    {
        if s[i] == c {
            return i;
        }
        i += 1;
    }
    i
}

/// The pieces of the text from `a` up to each separator.
pub open spec fn fields_from(s: Seq<char>, c: char, a: int) -> Seq<Seq<char>>
    decreases s.len() - a,
{
    let e = place_of(s, c, a);
    if a < 0 || e < a || e >= s.len() {
        seq![s.subrange(a, s.len() as int)]
    } else {
        seq![s.subrange(a, e)] + fields_from(s, c, e + 1)
    }
}

/// A text split at every separator.
pub open spec fn fields_of(s: Seq<char>, c: char) -> Seq<Seq<char>> {
    fields_from(s, c, 0)
}

/// A line without the carriage return before its end.
pub open spec fn line_body(s: Seq<char>, a: int, e: int) -> Seq<char> {
    if e > a && s[e - 1] == '\r' { s.subrange(a, e - 1) } else { s.subrange(a, e) }
}

/// The lines of a text from `a` on; nothing follows the last line feed.
pub open spec fn lines_from(s: Seq<char>, a: int) -> Seq<Seq<char>>
    decreases s.len() - a,
{
    let e = place_of(s, '\n', a);
    if a < 0 || a >= s.len() {
        Seq::empty()
    } else if e < a || e >= s.len() {
        seq![s.subrange(a, s.len() as int)]
    } else {
        seq![line_body(s, a, e)] + lines_from(s, e + 1)
    }
}

pub open spec fn lines_of(s: Seq<char>) -> Seq<Seq<char>> {
    lines_from(s, 0)
}

/// A character is white space.
pub open spec fn is_space(c: char) -> bool {
    let v = c as u32;
    ||| 0x09 <= v <= 0x0D
    ||| v == 0x20
    ||| v == 0x85
    ||| v == 0xA0
    ||| v == 0x1680
    ||| 0x2000 <= v <= 0x200A
    ||| v == 0x2028
    ||| v == 0x2029
    ||| v == 0x202F
    ||| v == 0x205F
    ||| v == 0x3000
}

pub fn white(c: char) -> (r: bool)
    ensures
        r == is_space(c),
{
    let v: u32 = c as u32;
    (0x09 <= v && v <= 0x0D) || v == 0x20 || v == 0x85 || v == 0xA0 || v == 0x1680 || (0x2000 <= v && v <= 0x200A) || v == 0x2028
        || v == 0x2029 || v == 0x202F || v == 0x205F || v == 0x3000
}

/// The first white space from `k` on.
pub open spec fn word_end(s: Seq<char>, k: int) -> int
    decreases s.len() - k,
{
    if k < 0 || k >= s.len() || is_space(s[k]) { k } else { word_end(s, k + 1) }
}

/// The words of a text from `k` on.
pub open spec fn words_from(s: Seq<char>, k: int) -> Seq<Seq<char>>
    decreases s.len() - k,
{
    if k < 0 || k >= s.len() {
        Seq::empty()
    } else if is_space(s[k]) {
        words_from(s, k + 1)
    } else {
        let e = word_end(s, k);
        if e <= k || e > s.len() { Seq::empty() } else { seq![s.subrange(k, e)] + words_from(s, e) }
    }
}

/// The text of a span.
pub open spec fn piece(s: Seq<char>, p: (usize, usize)) -> Seq<char> {
    s.subrange(p.0 as int, p.1 as int)
}

/// The texts of spans.
pub open spec fn pieces(s: Seq<char>, v: Seq<(usize, usize)>) -> Seq<Seq<char>> {
    v.map_values(|p: (usize, usize)| piece(s, p))
}

/// Every span lies in the text.
pub open spec fn spans_in(v: Seq<(usize, usize)>, n: int) -> bool {
    forall|i: int| 0 <= i < v.len() ==> (#[trigger] v[i]).0 <= v[i].1 && v[i].1 <= n
}

/// The lines of a text.
pub fn find_lines(s: &Vec<char>) -> (r: Vec<(usize, usize)>)
    ensures
        spans_in(r@, s@.len() as int),
        pieces(s@, r@) == lines_of(s@),
{
    let mut r: Vec<(usize, usize)> = Vec::new();
    let n: usize = s.len();
    let mut a: usize = 0;
    proof { assert(pieces(s@, r@) + lines_from(s@, 0) =~= lines_of(s@)); }
    while a < n
        invariant
            a <= n,
            n == s@.len(),
            spans_in(r@, n as int),
            lines_of(s@) == pieces(s@, r@) + lines_from(s@, a as int),
        decreases n - a,
    {
        proof { assert(s@.take(n as int) =~= s@); }
        let e: usize = find(s, '\n', a, n);
        let ghost before = r@;
        if e >= n {
            r.push((a, n));
            proof {
                assert(pieces(s@, r@) =~= pieces(s@, before).push(s@.subrange(a as int, n as int)));
                assert(pieces(s@, before) + seq![s@.subrange(a as int, n as int)] =~= pieces(s@, r@));
            }
            return r;
        }
        let end: usize = if e > a && s[e - 1] == '\r' { e - 1 } else { e };
        r.push((a, end));
        proof {
            let one = line_body(s@, a as int, e as int);
            assert(pieces(s@, r@) =~= pieces(s@, before).push(one));
            assert(pieces(s@, before) + (seq![one] + lines_from(s@, e + 1)) =~= pieces(s@, r@) + lines_from(s@, e + 1));
        }
        a = e + 1;
    }
    proof { assert(pieces(s@, r@) + Seq::empty() =~= pieces(s@, r@)); }
    r
}

/// The fields of a span, split at every separator.
pub fn find_fields(s: &Vec<char>, p: (usize, usize), c: char) -> (r: Vec<(usize, usize)>)
    requires
        p.0 <= p.1 <= s@.len(),
    ensures
        spans_in(r@, s@.len() as int),
        pieces(s@, r@) == fields_of(piece(s@, p), c),
        r@.len() >= 1,
{
    let ghost t = piece(s@, p);
    let mut r: Vec<(usize, usize)> = Vec::new();
    let mut a: usize = p.0;
    proof { assert(pieces(s@, r@) + fields_from(t, c, 0) =~= fields_of(t, c)); }
    loop
        invariant
            p.0 <= a <= p.1 <= s@.len(),
            t == piece(s@, p),
            spans_in(r@, s@.len() as int),
            fields_of(t, c) == pieces(s@, r@) + fields_from(t, c, a - p.0),
        decreases p.1 - a,
    {
        let e: usize = find(s, c, a, p.1);
        let ghost before = r@;
        proof {
            lemma_shifted_place(s@.take(p.1 as int), p.0 as int, c, a as int);
            assert(s@.take(p.1 as int).skip(p.0 as int) =~= t);
        }
        r.push((a, e));
        if e >= p.1 {
            proof {
                let one = t.subrange(a - p.0, t.len() as int);
                assert(piece(s@, (a, e)) =~= one);
                assert(pieces(s@, r@) =~= pieces(s@, before).push(one));
                assert(pieces(s@, before) + seq![one] =~= pieces(s@, r@));
            }
            return r;
        }
        proof {
            let one = t.subrange(a - p.0, e - p.0);
            assert(piece(s@, (a, e)) =~= one);
            assert(pieces(s@, r@) =~= pieces(s@, before).push(one));
            let rest = fields_from(t, c, e - p.0 + 1);
            assert(pieces(s@, before) + (seq![one] + rest) =~= pieces(s@, r@) + rest);
        }
        a = e + 1;
    }
}

/// A place in a part of a text is its place in the text.
proof fn lemma_shifted_place(s: Seq<char>, off: int, c: char, k: int)
    requires
        0 <= off <= k <= s.len(),
    ensures
        place_of(s.skip(off), c, k - off) == place_of(s, c, k) - off,
    decreases s.len() - k,
{
    if k < s.len() && s[k] != c {
        lemma_shifted_place(s, off, c, k + 1);
    }
}

proof fn lemma_word_end(s: Seq<char>, k: int)
    requires
        0 <= k <= s.len(),
    ensures
        k <= word_end(s, k) <= s.len(),
    decreases s.len() - k,
{
    if k < s.len() && !is_space(s[k]) {
        lemma_word_end(s, k + 1);
    }
}

/// The words of a span.
pub fn find_words(s: &Vec<char>, p: (usize, usize)) -> (r: Vec<(usize, usize)>)
    requires
        p.0 <= p.1 <= s@.len(),
    ensures
        spans_in(r@, s@.len() as int),
        pieces(s@, r@) == words_from(piece(s@, p), 0),
{
    let ghost t = piece(s@, p);
    let mut r: Vec<(usize, usize)> = Vec::new();
    let mut k: usize = p.0;
    proof { assert(pieces(s@, r@) + words_from(t, 0) =~= words_from(t, 0)); }
    while k < p.1
        invariant
            p.0 <= k <= p.1 <= s@.len(),
            t == piece(s@, p),
            spans_in(r@, s@.len() as int),
            words_from(t, 0) == pieces(s@, r@) + words_from(t, k - p.0),
        decreases p.1 - k,
    {
        proof { assert(t[k - p.0] == s@[k as int]); }
        if white(s[k]) {
            k += 1;
            continue;
        }
        let start: usize = k;
        proof { lemma_word_end(t, start - p.0); }
        while k < p.1 && !white(s[k])
            invariant
                p.0 <= start <= k <= p.1 <= s@.len(),
                t == piece(s@, p),
                word_end(t, start - p.0) == word_end(t, k - p.0),
            decreases p.1 - k,
        {
            proof { assert(t[k - p.0] == s@[k as int]); }
            k += 1;
        }
        proof {
            if k < p.1 {
                assert(t[k - p.0] == s@[k as int]);
            }
        }
        let ghost before = r@;
        r.push((start, k));
        proof {
            let one = t.subrange(start - p.0, k - p.0);
            assert(word_end(t, start - p.0) == k - p.0);
            assert(piece(s@, (start, k)) =~= one);
            assert(pieces(s@, r@) =~= pieces(s@, before).push(one));
            let rest = words_from(t, k - p.0);
            assert(pieces(s@, before) + (seq![one] + rest) =~= pieces(s@, r@) + rest);
        }
    }
    proof { assert(pieces(s@, r@) + Seq::empty() =~= pieces(s@, r@)); }
    r
}

/// The digit that a character stands for.
pub open spec fn digit(c: char, base: int) -> Option<int> {
    let v = c as u32;
    let d = if 0x30 <= v <= 0x39 {
        v - 0x30
    } else if 0x61 <= v <= 0x66 {
        v - 0x61 + 10
    } else if 0x41 <= v <= 0x46 {
        v - 0x41 + 10
    } else {
        99
    };
    if d < base { Some(d) } else { None }
}

/// The number of the first `n` digits; nothing where one is none.
pub open spec fn digits_value(s: Seq<char>, base: int, n: nat) -> Option<int>
    decreases n,
{
    if n == 0 {
        Some(0)
    } else {
        match (digits_value(s, base, (n - 1) as nat), digit(s[n - 1], base)) {
            (Some(v), Some(d)) => Some(v * base + d),
            _ => None,
        }
    }
}

/// A number without its sign.
pub open spec fn unsigned_value(s: Seq<char>, base: int) -> Option<int> {
    if s.len() == 0 { None } else { digits_value(s, base, s.len()) }
}

/// The number that a text spells in a range: digits after a plus, or, where
/// the range has negative numbers, a minus.
pub open spec fn number_in(s: Seq<char>, base: int, min: int, max: int) -> Option<int> {
    let v = if s.len() > 0 && s[0] == '+' {
        unsigned_value(s.skip(1), base)
    } else if s.len() > 0 && s[0] == '-' && min < 0 {
        match unsigned_value(s.skip(1), base) {
            Some(v) => Some(-v),
            None => None,
        }
    } else {
        unsigned_value(s, base)
    };
    match v {
        Some(v) => if min <= v <= max { Some(v) } else { None },
        None => None,
    }
}

/// More than any number asked for.
pub const TOO_MUCH: i128 = 0x1_0000_0000_0000_0000_0000_0000;

fn read_digit(c: char, base: i128) -> (r: Option<i128>)
    requires
        2 <= base <= 16,
    ensures
        r is Some <==> digit(c, base as int) is Some,
        r matches Some(d) ==> digit(c, base as int) == Some(d as int) && 0 <= d < base,
{
    let v: u32 = c as u32;
    let d: i128 = if 0x30 <= v && v <= 0x39 {
        v as i128 - 0x30
    } else if 0x61 <= v && v <= 0x66 {
        v as i128 - 0x61 + 10
    } else if 0x41 <= v && v <= 0x46 {
        v as i128 - 0x41 + 10
    } else {
        99
    };
    if d < base { Some(d) } else { None }
}

/// Digits only make a number larger.
proof fn lemma_digits_grow(s: Seq<char>, base: int, m: nat, n: nat)
    requires
        m <= n <= s.len(),
        base >= 2,
    ensures
        digits_value(s, base, n) is Some ==> digits_value(s, base, m) is Some && 0 <= digits_value(s, base, m)->Some_0
            <= digits_value(s, base, n)->Some_0,
    decreases n,
{
    if n > 0 {
        if m < n {
            lemma_digits_grow(s, base, m, (n - 1) as nat);
        } else {
            lemma_digits_grow(s, base, (m - 1) as nat, (n - 1) as nat);
        }
        lemma_digits_grow(s, base, 0, (n - 1) as nat);
        match (digits_value(s, base, (n - 1) as nat), digit(s[n - 1], base)) {
            (Some(v), Some(d)) => {
                assert(v <= v * base) by (nonlinear_arith)
                    requires
                        0 <= v,
                        base >= 1,
                ;
            },
            _ => {},
        }
    }
}

/// The digits of a span; what is too much is told by being so.
fn read_digits(s: &Vec<char>, a: usize, b: usize, base: i128) -> (r: Option<i128>)
    requires
        a < b <= s@.len(),
        2 <= base <= 16,
    ensures
        ({
            let v = unsigned_value(s@.subrange(a as int, b as int), base as int);
            match r {
                Some(x) => 0 <= x && v == Some(x as int),
                None => v is None || v->Some_0 >= TOO_MUCH,
            }
        }),
{
    let ghost t = s@.subrange(a as int, b as int);
    let mut v: i128 = 0;
    let mut i: usize = a;
    while i < b
        invariant
            a <= i <= b <= s@.len(),
            2 <= base <= 16,
            t == s@.subrange(a as int, b as int),
            0 <= v < TOO_MUCH,
            digits_value(t, base as int, (i - a) as nat) == Some(v as int),
        decreases b - i,
    {
        proof {
            assert(t[i - a] == s@[i as int]);
            lemma_digits_grow(t, base as int, (i - a + 1) as nat, t.len());
            assert(0 <= v * base <= TOO_MUCH * 16) by (nonlinear_arith)
                requires
                    0 <= v < TOO_MUCH,
                    2 <= base <= 16,
            ;
        }
        match read_digit(s[i], base) {
            None => return None,
            Some(d) => {
                let next: i128 = v * base + d;
                if next >= TOO_MUCH {
                    return None;
                }
                v = next;
            },
        }
        i += 1;
    }
    Some(v)
}

/// The number that a span spells in a range.
pub fn read_number(s: &Vec<char>, p: (usize, usize), base: i128, min: i128, max: i128) -> (r: Option<i128>)
    requires
        p.0 <= p.1 <= s@.len(),
        2 <= base <= 16,
        -0x1_0000_0000_0000_0000 <= min,
        max <= 0x1_0000_0000_0000_0000,
    ensures
        r is Some <==> number_in(piece(s@, p), base as int, min as int, max as int) is Some,
        r matches Some(v) ==> number_in(piece(s@, p), base as int, min as int, max as int) == Some(v as int),
        r matches Some(v) ==> min <= v <= max,
{
    let ghost t = piece(s@, p);
    if p.0 == p.1 {
        return None;
    }
    proof { assert(t[0] == s@[p.0 as int]); }
    let first: char = s[p.0];
    let plus: bool = first == '+';
    let minus: bool = first == '-' && min < 0;
    let a: usize = if plus || minus { p.0 + 1 } else { p.0 };
    proof {
        assert(s@.subrange(p.0 + 1, p.1 as int) =~= t.skip(1));
        assert(s@.subrange(p.0 as int, p.1 as int) =~= t);
    }
    if a == p.1 {
        return None;
    }
    match read_digits(s, a, p.1, base) {
        None => None,
        Some(v) => {
            let w: i128 = if minus { -v } else { v };
            if min <= w && w <= max { Some(w) } else { None }
        },
    }
}

/// Whether a span reads like a text.
pub fn reads(s: &Vec<char>, p: (usize, usize), word: &str) -> (r: bool)
    requires
        p.0 <= p.1 <= s@.len(),
    ensures
        r == (piece(s@, p) == word@),
{
    let w: Vec<char> = chars_of(word);
    if p.1 - p.0 != w.len() {
        return false;
    }
    let mut i: usize = 0;
    while i < w.len()
        invariant
            i <= w@.len(),
            p.0 <= p.1 <= s@.len(),
            p.1 - p.0 == w@.len(),
            w@ == word@,
            forall|k: int| 0 <= k < i ==> piece(s@, p)[k] == #[trigger] w@[k],
        decreases w.len() - i,
    {
        if s[p.0 + i] != w[i] {
            proof { assert(piece(s@, p)[i as int] != word@[i as int]); }
            return false;
        }
        i += 1;
    }
    proof { assert(piece(s@, p) =~= word@); }
    true
}

/// A text begins with another.
pub open spec fn begins(s: Seq<char>, w: Seq<char>) -> bool {
    w.len() <= s.len() && s.take(w.len() as int) == w
}

/// What follows a word at the start of a span.
pub fn after_prefix(s: &Vec<char>, p: (usize, usize), word: &str) -> (r: Option<(usize, usize)>)
    requires
        p.0 <= p.1 <= s@.len(),
    ensures
        r is Some <==> begins(piece(s@, p), word@),
        r matches Some(q) ==> q.0 <= q.1 && q.1 <= s@.len() && piece(s@, q) == piece(s@, p).skip(word@.len() as int),
{
    let w: Vec<char> = chars_of(word);
    let n: usize = w.len();
    if p.1 - p.0 < n {
        return None;
    }
    proof { assert(piece(s@, (p.0, (p.0 + n) as usize)) =~= piece(s@, p).take(n as int)); }
    if reads(s, (p.0, p.0 + n), word) {
        proof { assert(piece(s@, ((p.0 + n) as usize, p.1)) =~= piece(s@, p).skip(n as int)); }
        Some((p.0 + n, p.1))
    } else {
        None
    }
}

/// A text is all white space.
pub open spec fn is_blank(s: Seq<char>) -> bool {
    forall|i: int| 0 <= i < s.len() ==> is_space(#[trigger] s[i])
}

pub fn blank(s: &Vec<char>, p: (usize, usize)) -> (r: bool)
    requires
        p.0 <= p.1 <= s@.len(),
    ensures
        r == is_blank(piece(s@, p)),
{
    let mut i: usize = p.0;
    while i < p.1
        invariant
            p.0 <= i <= p.1 <= s@.len(),
            forall|k: int| 0 <= k < i - p.0 ==> is_space(#[trigger] piece(s@, p)[k]),
        decreases p.1 - i,
    {
        if !white(s[i]) {
            proof { assert(!is_space(piece(s@, p)[i - p.0])); }
            return false;
        }
        i += 1;
    }
    true
}

} // verus!
