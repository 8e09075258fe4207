//! The catalog of named character classes and charset normalization.
//!
//! A charset is an ordered sequence of characters; the enumerator walks it in
//! order. Before enumeration a charset is normalized: deduplicated and sorted
//! ascending by code point.

use vstd::prelude::*;

verus! {

/// The exact ordered contents of the `number` class.
pub open spec fn spec_digits() -> Seq<char> {
    seq!['0', '1', '2', '3', '4', '5', '6', '7', '8', '9']
}

/// The exact ordered contents of the `lower` class.
pub open spec fn spec_lowercase() -> Seq<char> {
    seq![
        'a', 'b', 'c', 'd', 'e', 'f', 'g', 'h', 'i', 'j', 'k', 'l', 'm', 'n', 'o', 'p', 'q', 'r',
        's', 't', 'u', 'v', 'w', 'x', 'y', 'z',
    ]
}

/// The exact ordered contents of the `upper` class.
pub open spec fn spec_uppercase() -> Seq<char> {
    seq![
        'A', 'B', 'C', 'D', 'E', 'F', 'G', 'H', 'I', 'J', 'K', 'L', 'M', 'N', 'O', 'P', 'Q', 'R',
        'S', 'T', 'U', 'V', 'W', 'X', 'Y', 'Z',
    ]
}

/// The exact ordered contents of the `special` class; the leading character
/// is an ASCII space.
pub open spec fn spec_punctuations() -> Seq<char> {
    seq![
        ' ', '-', '=', '!', '@', '#', '$', '%', '^', '&', '*', '_', '+', '<', '>', '/', '?', '.',
        ';', ':', '{', '}',
    ]
}

/// The digit class `0123456789`.
pub fn charset_digits() -> (r: Vec<char>)
    ensures
        r@ == spec_digits(),
{
    let r = vec!['0', '1', '2', '3', '4', '5', '6', '7', '8', '9'];
    proof {
        assert(r@ =~= spec_digits());
    }
    r
}

/// The lowercase class `abcdefghijklmnopqrstuvwxyz`.
pub fn charset_lowercase_letters() -> (r: Vec<char>)
    ensures
        r@ == spec_lowercase(),
{
    let r = vec![
        'a', 'b', 'c', 'd', 'e', 'f', 'g', 'h', 'i', 'j', 'k', 'l', 'm', 'n', 'o', 'p', 'q', 'r',
        's', 't', 'u', 'v', 'w', 'x', 'y', 'z',
    ];
    proof {
        assert(r@ =~= spec_lowercase());
    }
    r
}

/// The uppercase class `ABCDEFGHIJKLMNOPQRSTUVWXYZ`.
pub fn charset_uppercase_letters() -> (r: Vec<char>)
    ensures
        r@ == spec_uppercase(),
{
    let r = vec![
        'A', 'B', 'C', 'D', 'E', 'F', 'G', 'H', 'I', 'J', 'K', 'L', 'M', 'N', 'O', 'P', 'Q', 'R',
        'S', 'T', 'U', 'V', 'W', 'X', 'Y', 'Z',
    ];
    proof {
        assert(r@ =~= spec_uppercase());
    }
    r
}

/// The punctuation class; starts with an ASCII space.
pub fn charset_punctuations() -> (r: Vec<char>)
    ensures
        r@ == spec_punctuations(),
{
    let r = vec![
        ' ', '-', '=', '!', '@', '#', '$', '%', '^', '&', '*', '_', '+', '<', '>', '/', '?', '.',
        ';', ':', '{', '}',
    ];
    proof {
        assert(r@ =~= spec_punctuations());
    }
    r
}

/// A named character class that a strategy can select.
#[derive(Copy, Clone, Debug, PartialEq, Eq, Structural)]
pub enum CharsetChoice {
    Number,
    Lower,
    Upper,
    Special,
}

/// The error returned when a class name does not parse.
#[derive(Copy, Clone, Debug, PartialEq, Eq, Structural)]
pub struct ParseCharsetChoiceError;

/// The ordered contents of a class, as a spec sequence.
pub open spec fn spec_charset_of_choice(choice: CharsetChoice) -> Seq<char> {
    match choice {
        CharsetChoice::Number => spec_digits(),
        CharsetChoice::Lower => spec_lowercase(),
        CharsetChoice::Upper => spec_uppercase(),
        CharsetChoice::Special => spec_punctuations(),
    }
}

/// The snake-case name of a class.
pub open spec fn spec_choice_name(choice: CharsetChoice) -> Seq<char> {
    match choice {
        CharsetChoice::Number => "number"@,
        CharsetChoice::Lower => "lower"@,
        CharsetChoice::Upper => "upper"@,
        CharsetChoice::Special => "special"@,
    }
}

impl CharsetChoice {
    /// The ordered character contents of this class.
    pub fn to_charset(self) -> (r: Vec<char>)
        ensures
            r@ == spec_charset_of_choice(self),
    {
        match self {
            CharsetChoice::Number => charset_digits(),
            CharsetChoice::Lower => charset_lowercase_letters(),
            CharsetChoice::Upper => charset_uppercase_letters(),
            CharsetChoice::Special => charset_punctuations(),
        }
    }

    /// The snake-case name of this class.
    pub fn label(self) -> (r: String)
        ensures
            r@ == spec_choice_name(self),
    {
        match self {
            CharsetChoice::Number => String::from_str("number"),
            CharsetChoice::Lower => String::from_str("lower"),
            CharsetChoice::Upper => String::from_str("upper"),
            CharsetChoice::Special => String::from_str("special"),
        }
    }

    /// The comma-separated list of every class name, for help texts.
    pub fn to_string() -> (r: String)
        ensures
            r@ == "number,lower,upper,special"@,
    {
        String::from_str("number,lower,upper,special")
    }

    /// Parses a snake-case class name; inverse of `label`.
    pub fn parse_name(s: &str) -> (r: Result<CharsetChoice, ParseCharsetChoiceError>)
        ensures
            (r == Ok::<CharsetChoice, ParseCharsetChoiceError>(CharsetChoice::Number)) <==> (s@
                == "number"@),
            (r == Ok::<CharsetChoice, ParseCharsetChoiceError>(CharsetChoice::Lower)) <==> (s@
                == "lower"@),
            (r == Ok::<CharsetChoice, ParseCharsetChoiceError>(CharsetChoice::Upper)) <==> (s@
                == "upper"@),
            (r == Ok::<CharsetChoice, ParseCharsetChoiceError>(CharsetChoice::Special)) <==> (s@
                == "special"@),
    {
        proof {
            broadcast use vstd::string::group_string_axioms;

            reveal_strlit("number");
            reveal_strlit("lower");
            reveal_strlit("upper");
            reveal_strlit("special");
            assert("number"@.len() == 6);
            assert("lower"@.len() == 5);
            assert("upper"@.len() == 5);
            assert("special"@.len() == 7);
            assert("lower"@[0] == 'l');
            assert("upper"@[0] == 'u');
        }
        let t = s.to_owned();
        if t == String::from_str("number") {
            Ok(CharsetChoice::Number)
        } else if t == String::from_str("lower") {
            Ok(CharsetChoice::Lower)
        } else if t == String::from_str("upper") {
            Ok(CharsetChoice::Upper)
        } else if t == String::from_str("special") {
            Ok(CharsetChoice::Special)
        } else {
            Err(ParseCharsetChoiceError)
        }
    }
}

impl core::str::FromStr for CharsetChoice {
    type Err = ParseCharsetChoiceError;

    fn from_str(s: &str) -> Result<CharsetChoice, ParseCharsetChoiceError> {
        CharsetChoice::parse_name(s)
    }
}

/// A sequence of characters that is strictly ascending by code point;
/// such a sequence has no duplicates.
pub open spec fn strictly_sorted_chars(s: Seq<char>) -> bool {
    forall|i: int, j: int| 0 <= i < j < s.len() ==> (s[i] as u32) < (s[j] as u32)
}

/// Two characters are equal exactly when their code points are; stated as a
/// lemma so that characters read out of a sequence regain this fact.
pub proof fn lemma_char_code(a: char, b: char)
    ensures
        (a == b) <==> ((a as u32) == (b as u32)),
{
}

/// Normalizes a charset as the generator expects it: deduplicated and
/// sorted ascending by code point. The result holds exactly the characters
/// of the input, each once, in ascending order.
pub fn normalize_charset(chars: &Vec<char>) -> (r: Vec<char>)
    ensures
        strictly_sorted_chars(r@),
        forall|c: char| r@.contains(c) <==> chars@.contains(c),
{
    let mut out: Vec<char> = Vec::new();
    let mut i: usize = 0;
    while i < chars.len()
        invariant
            i <= chars@.len(),
            strictly_sorted_chars(out@),
            forall|c: char| out@.contains(c) <==> chars@.take(i as int).contains(c),
        decreases chars@.len() - i,
    {
        let c = chars[i];
        let ghost prev = out@;
        insert_sorted(&mut out, c);
        proof {
            assert(chars@.take(i as int + 1) =~= chars@.take(i as int).push(c));
            assert forall|d: char| out@.contains(d) implies chars@.take(i as int + 1).contains(
                d,
            ) by {
                if d == c {
                    assert(chars@.take(i as int + 1)[i as int] == c);
                } else {
                    assert(prev.contains(d));
                    let k = choose|k: int| 0 <= k < i && chars@.take(i as int)[k] == d;
                    assert(chars@.take(i as int + 1)[k] == d);
                }
            }
            assert forall|d: char| chars@.take(i as int + 1).contains(d) implies out@.contains(
                d,
            ) by {
                if d != c {
                    let k = choose|k: int|
                        0 <= k < i + 1 && #[trigger] chars@.take(i as int + 1)[k] == d;
                    assert(chars@.take(i as int)[k] == d);
                    assert(prev.contains(d));
                }
            }
        }
        i = i + 1;
    }
    proof {
        assert(chars@.take(chars@.len() as int) =~= chars@);
    }
    out
}

/// Inserts `c` into a strictly sorted vector, keeping it strictly sorted;
/// a character already present is not inserted twice.
fn insert_sorted(out: &mut Vec<char>, c: char)
    requires
        strictly_sorted_chars(old(out)@),
    ensures
        strictly_sorted_chars(final(out)@),
        forall|d: char| final(out)@.contains(d) <==> (old(out)@.contains(d) || d == c),
{
    let mut j: usize = 0;
    while j < out.len() && (out[j] as u32) < (c as u32)
        invariant
            j <= out@.len(),
            out@ == old(out)@,
            strictly_sorted_chars(out@),
            forall|k: int| 0 <= k < j ==> (out@[k] as u32) < (c as u32),
        decreases out@.len() - j,
    {
        j = j + 1;
    }
    if j < out.len() && out[j] == c {
        proof {
            assert(out@.contains(c));
        }
        return ;
    }
    let ghost orig = out@;
    proof {
        if j < orig.len() {
            assert((orig[j as int] as u32) >= (c as u32));
            assert(orig[j as int] != c);
            lemma_char_code(orig[j as int], c);
        }
    }
    out.insert(j, c);
    proof {
        assert(out@ == orig.insert(j as int, c));
        assert(out@[j as int] == c);
        assert forall|p: int, q: int| 0 <= p < q < out@.len() implies (out@[p] as u32) < (
        out@[q] as u32) by {
            if p < j && q < j {
                assert(out@[p] == orig[p] && out@[q] == orig[q]);
            } else if p < j && q == j {
                assert(out@[p] == orig[p]);
            } else if p < j && q > j {
                assert(out@[p] == orig[p] && out@[q] == orig[q - 1]);
                if q - 1 > p {
                    assert((orig[p] as u32) < (orig[q - 1] as u32));
                }
            } else if p == j && q > j {
                assert(out@[q] == orig[q - 1]);
                assert((c as u32) < (orig[j as int] as u32));
                if q - 1 > j {
                    assert((orig[j as int] as u32) < (orig[q - 1] as u32));
                }
            } else {
                assert(out@[p] == orig[p - 1] && out@[q] == orig[q - 1]);
            }
        }
        assert forall|d: char| out@.contains(d) implies (orig.contains(d) || d == c) by {
            let k = choose|k: int| 0 <= k < out@.len() && out@[k] == d;
            if k < j {
                assert(orig[k] == d);
            } else if k > j {
                assert(orig[k - 1] == d);
            }
        }
        assert forall|d: char| orig.contains(d) implies out@.contains(d) by {
            let k = choose|k: int| 0 <= k < orig.len() && orig[k] == d;
            if k < j {
                assert(out@[k] == d);
            } else {
                assert(out@[k + 1] == d);
            }
        }
    }
}

} // verus!
