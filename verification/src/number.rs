//! Which lexemes are numbers: those that Rust reads as a floating-point
//! literal. The grammar is
//!
//! ```text
//! Float  ::= Sign? ( 'inf' | 'infinity' | 'nan' | Number )
//! Number ::= ( Digit+ | Digit+ '.' Digit* | Digit* '.' Digit+ ) Exp?
//! Exp    ::= 'e' Sign? Digit+
//! Sign   ::= [+-]
//! Digit  ::= [0-9]
//! ```
//!
//! with letters in either case.

use vstd::prelude::*;
use vstd::utf8::char_u32_cast;

verus! {

pub open spec fn is_digit(c: char) -> bool {
    '0' <= c && c <= '9'
}

pub open spec fn is_sign(c: char) -> bool {
    c == '+' || c == '-'
}

/// `Digit*`
pub open spec fn all_digits(s: Seq<char>) -> bool {
    forall|i: int| 0 <= i < s.len() ==> is_digit(#[trigger] s[i])
}

/// `Digit+`
pub open spec fn is_digits(s: Seq<char>) -> bool {
    s.len() > 0 && all_digits(s)
}

/// The text behind its sign, where it begins with one.
pub open spec fn without_sign(s: Seq<char>) -> Seq<char> {
    if s.len() > 0 && is_sign(s[0]) {
        s.drop_first()
    } else {
        s
    }
}

/// `Exp`
pub open spec fn is_exponent(s: Seq<char>) -> bool {
    &&& s.len() > 0
    &&& (s[0] == 'e' || s[0] == 'E')
    &&& is_digits(without_sign(s.drop_first()))
}

/// `Digit+ | Digit+ '.' Digit* | Digit* '.' Digit+`
pub open spec fn is_mantissa(s: Seq<char>) -> bool {
    ||| is_digits(s)
    ||| exists|dot: int|
        {
            &&& 0 <= dot < s.len()
            &&& s.len() >= 2
            &&& s[dot] == '.'
            &&& #[trigger] all_digits(s.take(dot))
            &&& all_digits(s.skip(dot + 1))
        }
}

/// `Number`
pub open spec fn is_number(s: Seq<char>) -> bool {
    exists|cut: int|
        {
            &&& 0 <= cut <= s.len()
            &&& #[trigger] is_mantissa(s.take(cut))
            &&& (cut == s.len() || is_exponent(s.skip(cut)))
        }
}

/// The character is the given lower-case letter or its capital.
pub open spec fn is_letter(c: char, lower: char) -> bool {
    c == lower || c as u32 + 32 == lower as u32
}

/// The text spells the given lower-case word, in either case.
pub open spec fn is_word(s: Seq<char>, word: Seq<char>) -> bool {
    &&& s.len() == word.len()
    &&& forall|i: int| 0 <= i < s.len() ==> is_letter(#[trigger] s[i], word[i])
}

/// `'inf' | 'infinity' | 'nan'`
pub open spec fn is_special(s: Seq<char>) -> bool {
    ||| is_word(s, seq!['i', 'n', 'f'])
    ||| is_word(s, seq!['i', 'n', 'f', 'i', 'n', 'i', 't', 'y'])
    ||| is_word(s, seq!['n', 'a', 'n'])
}

/// `Float`
pub open spec fn is_float_literal(s: Seq<char>) -> bool {
    is_special(without_sign(s)) || is_number(without_sign(s))
}

/// Digits up to `whole`, then, where `dotted`, a point and digits up to
/// `end`: with one digit or more this is the one mantissa that the end of the
/// text or an exponent can follow.
proof fn lemma_number(s: Seq<char>, whole: int, dotted: bool, end: int)
    requires
        0 <= whole <= end <= s.len(),
        forall|i: int| 0 <= i < whole ==> is_digit(s[i]),
        whole < s.len() ==> !is_digit(s[whole]),
        dotted <==> whole < s.len() && s[whole] == '.',
        dotted ==> whole < end && forall|i: int| whole < i < end ==> is_digit(s[i]),
        dotted && end < s.len() ==> !is_digit(s[end]),
        !dotted ==> end == whole,
    ensures
        is_number(s) <==> {
            &&& (if dotted {
                end - 1
            } else {
                whole
            }) > 0
            &&& (end == s.len() || is_exponent(s.skip(end)))
        },
{
    let digits = if dotted {
        end - 1
    } else {
        whole
    };
    if digits > 0 && (end == s.len() || is_exponent(s.skip(end))) {
        let m = s.take(end);
        if dotted {
            assert(m[whole] == '.');
            assert(all_digits(m.take(whole)));
            assert(all_digits(m.skip(whole + 1)));
        } else {
            assert(is_digits(m));
        }
        assert(is_mantissa(s.take(end)));
    }
    if is_number(s) {
        let cut = choose|cut: int|
            {
                &&& 0 <= cut <= s.len()
                &&& #[trigger] is_mantissa(s.take(cut))
                &&& (cut == s.len() || is_exponent(s.skip(cut)))
            };
        let m = s.take(cut);
        if cut < s.len() {
            assert(s.skip(cut)[0] == s[cut]);
        }
        if is_digits(m) {
            assert forall|i: int| 0 <= i < cut implies is_digit(s[i]) by {
                assert(m[i] == s[i]);
            }
            assert(cut == whole);
        } else {
            let dot = choose|dot: int|
                {
                    &&& 0 <= dot < m.len()
                    &&& m.len() >= 2
                    &&& m[dot] == '.'
                    &&& #[trigger] all_digits(m.take(dot))
                    &&& all_digits(m.skip(dot + 1))
                };
            assert(m[dot] == s[dot]);
            assert forall|i: int| 0 <= i < dot implies is_digit(s[i]) by {
                assert(m.take(dot)[i] == s[i]);
            }
            assert(dot == whole);
            assert forall|i: int| dot < i < cut implies is_digit(s[i]) by {
                assert(m.skip(dot + 1)[i - dot - 1] == s[i]);
            }
            assert(cut == end);
        }
    }
}

/// The characters of a text, one by one.
fn chars_of(text: &str) -> (v: Vec<char>)
    ensures
        v@ == text@,
{
    let mut v: Vec<char> = Vec::new();
    for c in it: text.chars()
        invariant
            it.seq() == text@,
            v@ == text@.take(it.index() as int),
    {
        v.push(c);
        assert(text@.take(it.index() + 1) =~= text@.take(it.index() as int).push(c));
    }
    assert(text@.take(text@.len() as int) =~= text@);
    v
}

/// The first place from `from` on that holds no digit.
fn skip_digits(v: &Vec<char>, from: usize) -> (to: usize)
    requires
        from <= v.len(),
    ensures
        from <= to <= v.len(),
        forall|i: int| from <= i < to ==> is_digit(v@[i]),
        to < v.len() ==> !is_digit(v@[to as int]),
{
    let mut to = from;
    while to < v.len() && v[to] >= '0' && v[to] <= '9'
        invariant
            from <= to <= v.len(),
            forall|i: int| from <= i < to ==> is_digit(v@[i]),
        decreases v.len() - to,
    {
        to += 1;
    }
    to
}

fn letter_at(v: &Vec<char>, at: usize, lower: char, upper: char) -> (b: bool)
    requires
        at < v.len(),
        upper as u32 + 32 == lower as u32,
    ensures
        b == is_letter(v@[at as int], lower),
{
    proof {
        let c = v@[at as int];
        if c as u32 == upper as u32 {
            char_u32_cast(c, c as u32);
            char_u32_cast(upper, upper as u32);
        }
    }
    v[at] == lower || v[at] == upper
}

/// Whether the text from `from` on is `inf`, `infinity` or `nan`, in either case.
fn special_from(v: &Vec<char>, from: usize) -> (b: bool)
    requires
        from <= v.len(),
    ensures
        b == is_special(v@.skip(from as int)),
{
    let n = v.len() - from;
    let ghost s = v@.skip(from as int);
    if n == 3 {
        let inf = letter_at(v, from, 'i', 'I') && letter_at(v, from + 1, 'n', 'N') && letter_at(
            v,
            from + 2,
            'f',
            'F',
        );
        let nan = letter_at(v, from, 'n', 'N') && letter_at(v, from + 1, 'a', 'A') && letter_at(
            v,
            from + 2,
            'n',
            'N',
        );
        proof {
            assert(s[0] == v@[from as int] && s[1] == v@[from + 1] && s[2] == v@[from + 2]);
        }
        inf || nan
    } else if n == 8 {
        let b = letter_at(v, from, 'i', 'I') && letter_at(v, from + 1, 'n', 'N') && letter_at(
            v,
            from + 2,
            'f',
            'F',
        ) && letter_at(v, from + 3, 'i', 'I') && letter_at(v, from + 4, 'n', 'N') && letter_at(
            v,
            from + 5,
            'i',
            'I',
        ) && letter_at(v, from + 6, 't', 'T') && letter_at(v, from + 7, 'y', 'Y');
        proof {
            assert(s[0] == v@[from as int] && s[1] == v@[from + 1] && s[2] == v@[from + 2]);
            assert(s[3] == v@[from + 3] && s[4] == v@[from + 4] && s[5] == v@[from + 5]);
            assert(s[6] == v@[from + 6] && s[7] == v@[from + 7]);
        }
        b
    } else {
        false
    }
}

/// Whether the text from `from` on is an exponent.
fn exponent_from(v: &Vec<char>, from: usize) -> (b: bool)
    requires
        from < v.len(),
    ensures
        b == is_exponent(v@.skip(from as int)),
{
    let ghost s = v@.skip(from as int);
    assert(s[0] == v@[from as int]);
    if v[from] != 'e' && v[from] != 'E' {
        return false;
    }
    let signed = from + 1 < v.len() && (v[from + 1] == '+' || v[from + 1] == '-');
    let first = if signed {
        from + 2
    } else {
        from + 1
    };
    let last = skip_digits(v, first);
    proof {
        let t = s.drop_first();
        if t.len() > 0 {
            assert(t[0] == v@[from + 1]);
        }
        let d = without_sign(t);
        assert(d =~= v@.skip(first as int));
        if last == v.len() {
            assert forall|i: int| 0 <= i < d.len() implies is_digit(#[trigger] d[i]) by {
                assert(d[i] == v@[first + i]);
            }
        } else {
            assert(d[last - first] == v@[last as int]);
        }
    }
    last == v.len() && last > first
}

/// Whether Rust reads the text as a floating-point literal.
pub fn is_float(text: &str) -> (b: bool)
    ensures
        b == is_float_literal(text@),
{
    let v = chars_of(text);
    let from: usize = if v.len() > 0 && (v[0] == '+' || v[0] == '-') {
        1
    } else {
        0
    };
    let ghost s = v@.skip(from as int);
    assert(s =~= without_sign(text@));
    if special_from(&v, from) {
        return true;
    }
    let whole = skip_digits(&v, from);
    let dotted = whole < v.len() && v[whole] == '.';
    let end = if dotted {
        skip_digits(&v, whole + 1)
    } else {
        whole
    };
    let digits = if dotted {
        end - from - 1
    } else {
        whole - from
    };
    let followed = end == v.len() || exponent_from(&v, end);
    proof {
        assert(s.skip(end - from) =~= v@.skip(end as int));
        assert forall|i: int| 0 <= i < s.len() implies s[i] == v@[from + i] by {
        }
        lemma_number(s, whole - from, dotted, end - from);
    }
    digits > 0 && followed
}

} // verus!
