//! The escape codec: translation between raw text and XML-escaped text.
//!
//! `escape` replaces the five characters `& < > ' "` by their named entities;
//! `unescape` resolves the five named entities and numeric character
//! references, and fails on anything else that looks like an entity.

use crate::text::{chars_to_string, str_to_chars, vec_slice};
use vstd::prelude::*;

verus! {

/// Relies on `char::from_u32`: returns `Some` exactly on Unicode scalar
/// values (code points below 0x110000 that are not surrogates).
pub assume_specification[ char::from_u32 ](v: u32) -> (r: Option<char>)
    ensures
        valid_scalar(v as nat) ==> r == Some(v as char),
        !valid_scalar(v as nat) ==> r is None,
;

/// The expansion of one character under escaping.
pub open spec fn esc_char(c: char) -> Seq<char> {
    if c == '&' {
        seq!['&', 'a', 'm', 'p', ';']
    } else if c == '<' {
        seq!['&', 'l', 't', ';']
    } else if c == '>' {
        seq!['&', 'g', 't', ';']
    } else if c == '\'' {
        seq!['&', 'a', 'p', 'o', 's', ';']
    } else if c == '"' {
        seq!['&', 'q', 'u', 'o', 't', ';']
    } else {
        seq![c]
    }
}

/// The escaped form of a text: each character replaced by its expansion.
pub open spec fn spec_escape(s: Seq<char>) -> Seq<char>
    decreases s.len(),
{
    if s.len() == 0 {
        Seq::empty()
    } else {
        esc_char(s[0]) + spec_escape(s.drop_first())
    }
}

/// Decimal digit test.
pub open spec fn is_dec_digit(c: char) -> bool {
    '0' <= c && c <= '9'
}

/// Hexadecimal digit test, case-insensitive.
pub open spec fn is_hex_digit(c: char) -> bool {
    ('0' <= c && c <= '9') || ('a' <= c && c <= 'f') || ('A' <= c && c <= 'F')
}

/// Value of a decimal digit.
pub open spec fn dec_digit_val(c: char) -> nat {
    (c as nat - '0' as nat) as nat
}

/// Value of a hexadecimal digit.
pub open spec fn hex_digit_val(c: char) -> nat {
    if '0' <= c && c <= '9' {
        (c as nat - '0' as nat) as nat
    } else if 'a' <= c && c <= 'f' {
        (c as nat - 'a' as nat + 10) as nat
    } else {
        (c as nat - 'A' as nat + 10) as nat
    }
}

/// Every character of `s` is a decimal digit.
pub open spec fn all_dec_digits(s: Seq<char>) -> bool {
    forall|i: int| 0 <= i < s.len() ==> is_dec_digit(#[trigger] s[i])
}

/// Every character of `s` is a hexadecimal digit.
pub open spec fn all_hex_digits(s: Seq<char>) -> bool {
    forall|i: int| 0 <= i < s.len() ==> is_hex_digit(#[trigger] s[i])
}

/// The number denoted by a sequence of decimal digits.
pub open spec fn dec_value(s: Seq<char>) -> nat
    decreases s.len(),
{
    if s.len() == 0 {
        0
    } else {
        dec_value(s.drop_last()) * 10 + dec_digit_val(s.last())
    }
}

/// The number denoted by a sequence of hexadecimal digits.
pub open spec fn hex_value(s: Seq<char>) -> nat
    decreases s.len(),
{
    if s.len() == 0 {
        0
    } else {
        hex_value(s.drop_last()) * 16 + hex_digit_val(s.last())
    }
}

/// A number is a Unicode scalar value: a code point that is not a surrogate.
pub open spec fn valid_scalar(v: nat) -> bool {
    v < 0xD800 || (0xE000 <= v && v < 0x110000)
}

/// An entity text of the form `&#xH…H;` (at least one hexadecimal digit).
pub open spec fn is_hex_ref(ent: Seq<char>) -> bool {
    &&& ent.len() >= 5
    &&& ent[0] == '&'
    &&& ent[1] == '#'
    &&& ent[2] == 'x'
    &&& ent.last() == ';'
    &&& all_hex_digits(ent.subrange(3, ent.len() - 1))
}

/// An entity text of the form `&#D…D;` (at least one decimal digit).
pub open spec fn is_dec_ref(ent: Seq<char>) -> bool {
    &&& ent.len() >= 4
    &&& ent[0] == '&'
    &&& ent[1] == '#'
    &&& ent.last() == ';'
    &&& all_dec_digits(ent.subrange(2, ent.len() - 1))
}

/// The character denoted by an entity text running from `&` through `;`,
/// or `None` when the entity is not recognized.
pub open spec fn ent_value(ent: Seq<char>) -> Option<char> {
    if ent == seq!['&', 'q', 'u', 'o', 't', ';'] {
        Some('"')
    } else if ent == seq!['&', 'a', 'p', 'o', 's', ';'] {
        Some('\'')
    } else if ent == seq!['&', 'g', 't', ';'] {
        Some('>')
    } else if ent == seq!['&', 'l', 't', ';'] {
        Some('<')
    } else if ent == seq!['&', 'a', 'm', 'p', ';'] {
        Some('&')
    } else if is_hex_ref(ent) {
        if valid_scalar(hex_value(ent.subrange(3, ent.len() - 1))) {
            Some(hex_value(ent.subrange(3, ent.len() - 1)) as char)
        } else {
            None
        }
    } else if is_dec_ref(ent) {
        if valid_scalar(dec_value(ent.subrange(2, ent.len() - 1))) {
            Some(dec_value(ent.subrange(2, ent.len() - 1)) as char)
        } else {
            None
        }
    } else {
        None
    }
}

/// Index of the first `;` in `s`, if any.
pub open spec fn find_semi(s: Seq<char>) -> Option<int>
    decreases s.len(),
{
    if s.len() == 0 {
        None
    } else if s[0] == ';' {
        Some(0)
    } else {
        match find_semi(s.drop_first()) {
            None => None,
            Some(j) => Some(j + 1),
        }
    }
}

pub proof fn lemma_find_semi(s: Seq<char>)
    ensures
        match find_semi(s) {
            None => forall|i: int| 0 <= i < s.len() ==> s[i] != ';',
            Some(j) => 0 <= j < s.len() && s[j] == ';' && forall|i: int| 0 <= i < j ==> s[i] != ';',
        },
    decreases s.len(),
{
    if s.len() != 0 && s[0] != ';' {
        lemma_find_semi(s.drop_first());
        assert forall|i: int| 0 <= i < s.len() && i > 0 implies s[i] == s.drop_first()[i - 1] by {}
    }
}

/// The unescaped form of a text, or the offending entity text on failure.
///
/// An `&` opens an entity running through the next `;`; the five named
/// entities and numeric character references denoting Unicode scalar values
/// are resolved; anything else fails.  An `&` with no `;` after it fails
/// with the unterminated tail.
pub open spec fn spec_unescape(s: Seq<char>) -> Result<Seq<char>, Seq<char>>
    decreases s.len(),
    via spec_unescape_dec
{
    if s.len() == 0 {
        Ok(Seq::empty())
    } else if s[0] != '&' {
        match spec_unescape(s.drop_first()) {
            Ok(r) => Ok(seq![s[0]] + r),
            Err(e) => Err(e),
        }
    } else {
        match find_semi(s) {
            None => Err(s),
            Some(j) => {
                let ent = s.subrange(0, j + 1);
                match ent_value(ent) {
                    None => Err(ent),
                    Some(c) => match spec_unescape(s.subrange(j + 1, s.len() as int)) {
                        Ok(r) => Ok(seq![c] + r),
                        Err(e) => Err(e),
                    },
                }
            },
        }
    }
}

#[via_fn]
proof fn spec_unescape_dec(s: Seq<char>) {
    lemma_find_semi(s);
}

/// Unfolding of `spec_unescape` on an ordinary leading character.
proof fn lemma_unescape_cons(s: Seq<char>)
    requires
        s.len() > 0,
        s[0] != '&',
    ensures
        match spec_unescape(s.drop_first()) {
            Ok(r) => spec_unescape(s) == Ok::<Seq<char>, Seq<char>>(seq![s[0]] + r),
            Err(e) => spec_unescape(s) == Err::<Seq<char>, Seq<char>>(e),
        },
{
}

/// Unfolding of `spec_unescape` on `&` with no `;` anywhere after it.
proof fn lemma_unescape_amp_unterminated(s: Seq<char>)
    requires
        s.len() > 0,
        s[0] == '&',
        forall|k: int| 0 <= k < s.len() ==> s[k] != ';',
    ensures
        spec_unescape(s) == Err::<Seq<char>, Seq<char>>(s),
{
    lemma_find_semi(s);
    if find_semi(s) is Some {
        let jj = find_semi(s)->0;
        assert(s[jj] == ';');
        assert(false);
    }
}

/// Unfolding of `spec_unescape` on `&` whose first `;` stands at index `j`.
proof fn lemma_unescape_amp(s: Seq<char>, j: int)
    requires
        s.len() > 0,
        s[0] == '&',
        0 <= j < s.len(),
        s[j] == ';',
        forall|k: int| 0 <= k < j ==> s[k] != ';',
    ensures
        match ent_value(s.subrange(0, j + 1)) {
            None => spec_unescape(s) == Err::<Seq<char>, Seq<char>>(s.subrange(0, j + 1)),
            Some(c) => match spec_unescape(s.subrange(j + 1, s.len() as int)) {
                Ok(r) => spec_unescape(s) == Ok::<Seq<char>, Seq<char>>(seq![c] + r),
                Err(e) => spec_unescape(s) == Err::<Seq<char>, Seq<char>>(e),
            },
        },
{
    lemma_find_semi(s);
    if find_semi(s) is None {
        assert(s[j] != ';');
        assert(false);
    }
    let jj = find_semi(s)->0;
    if jj < j {
        assert(s[jj] != ';');
        assert(false);
    }
    if jj > j {
        assert(s[j] != ';');
        assert(false);
    }
    assert(find_semi(s) == Some(j));
}

/// The character denoted by the entity text `ent`, or `None` when `ent` is
/// not a recognized entity.
#[verifier::loop_isolation(false)]
fn ent_value_chars(ent: &Vec<char>) -> (r: Option<char>)
    ensures
        r == ent_value(ent@),
{
    let n = ent.len();
    if n < 2 || ent[0] != '&' {
        return None;
    }
    if n == 6 && ent[1] == 'q' && ent[2] == 'u' && ent[3] == 'o' && ent[4] == 't' && ent[5] == ';' {
        proof {
            assert(ent@ =~= seq!['&', 'q', 'u', 'o', 't', ';']);
        }
        return Some('"');
    }
    if n == 6 && ent[1] == 'a' && ent[2] == 'p' && ent[3] == 'o' && ent[4] == 's' && ent[5] == ';' {
        proof {
            assert(ent@ =~= seq!['&', 'a', 'p', 'o', 's', ';']);
        }
        return Some('\'');
    }
    if n == 4 && ent[1] == 'g' && ent[2] == 't' && ent[3] == ';' {
        proof {
            assert(ent@ =~= seq!['&', 'g', 't', ';']);
        }
        return Some('>');
    }
    if n == 4 && ent[1] == 'l' && ent[2] == 't' && ent[3] == ';' {
        proof {
            assert(ent@ =~= seq!['&', 'l', 't', ';']);
        }
        return Some('<');
    }
    if n == 5 && ent[1] == 'a' && ent[2] == 'm' && ent[3] == 'p' && ent[4] == ';' {
        proof {
            assert(ent@ =~= seq!['&', 'a', 'm', 'p', ';']);
        }
        return Some('&');
    }
    if n >= 5 && ent[1] == '#' && ent[2] == 'x' && ent[n - 1] == ';' {
        // Hexadecimal character reference.
        let mut i: usize = 3;
        let mut val: u32 = 0;
        let mut over = false;
        while i < n - 1
            invariant
                3 <= i <= n - 1,
                n == ent@.len(),
                n >= 5,
                all_hex_digits(ent@.subrange(3, i as int)),
                !over ==> val < 0x110000 && val as nat == hex_value(ent@.subrange(3, i as int)),
                over ==> hex_value(ent@.subrange(3, i as int)) >= 0x110000,
            decreases n - 1 - i,
        {
            let c = ent[i];
            let d: u32;
            if '0' <= c && c <= '9' {
                d = c as u32 - '0' as u32;
            } else if 'a' <= c && c <= 'f' {
                d = c as u32 - 'a' as u32 + 10;
            } else if 'A' <= c && c <= 'F' {
                d = c as u32 - 'A' as u32 + 10;
            } else {
                proof {
                    assert(!is_hex_digit(ent@.subrange(3, ent@.len() - 1)[i - 3]));
                    assert(!is_hex_ref(ent@));
                    assert(!is_dec_digit(ent@.subrange(2, ent@.len() - 1)[0]));
                    assert(!is_dec_ref(ent@));
                }
                return None;
            }
            proof {
                let pre = ent@.subrange(3, i + 1);
                assert(pre.drop_last() =~= ent@.subrange(3, i as int));
                assert(pre.last() == ent@[i as int]);
                assert(hex_value(pre) == hex_value(ent@.subrange(3, i as int)) * 16 + hex_digit_val(
                    ent@[i as int],
                ));
            }
            if over {
                proof {
                    let hv = hex_value(ent@.subrange(3, i as int));
                    assert(hv * 16 == hv + hv * 15);
                }
            } else {
                let nv = val * 16 + d;
                if nv >= 0x110000 {
                    over = true;
                } else {
                    val = nv;
                }
            }
            i = i + 1;
        }
        proof {
            assert(ent@.subrange(3, i as int) =~= ent@.subrange(3, ent@.len() - 1));
            assert(is_hex_ref(ent@));
        }
        if over {
            return None;
        }
        return char::from_u32(val);
    }
    if n >= 4 && ent[1] == '#' && ent[n - 1] == ';' {
        // Decimal character reference.
        let mut i: usize = 2;
        let mut val: u32 = 0;
        let mut over = false;
        while i < n - 1
            invariant
                2 <= i <= n - 1,
                n == ent@.len(),
                n >= 4,
                all_dec_digits(ent@.subrange(2, i as int)),
                !over ==> val < 0x110000 && val as nat == dec_value(ent@.subrange(2, i as int)),
                over ==> dec_value(ent@.subrange(2, i as int)) >= 0x110000,
                !is_hex_ref(ent@),
            decreases n - 1 - i,
        {
            let c = ent[i];
            let d: u32;
            if '0' <= c && c <= '9' {
                d = c as u32 - '0' as u32;
            } else {
                proof {
                    assert(!is_dec_digit(ent@.subrange(2, ent@.len() - 1)[i - 2]));
                    assert(!is_dec_ref(ent@));
                }
                return None;
            }
            proof {
                let pre = ent@.subrange(2, i + 1);
                assert(pre.drop_last() =~= ent@.subrange(2, i as int));
                assert(pre.last() == ent@[i as int]);
                assert(dec_value(pre) == dec_value(ent@.subrange(2, i as int)) * 10 + dec_digit_val(
                    ent@[i as int],
                ));
            }
            if over {
                proof {
                    let dv = dec_value(ent@.subrange(2, i as int));
                    assert(dv * 10 == dv + dv * 9);
                }
            } else {
                let nv = val * 10 + d;
                if nv >= 0x110000 {
                    over = true;
                } else {
                    val = nv;
                }
            }
            i = i + 1;
        }
        proof {
            assert(ent@.subrange(2, i as int) =~= ent@.subrange(2, ent@.len() - 1));
            assert(is_dec_ref(ent@));
        }
        if over {
            return None;
        }
        return char::from_u32(val);
    }
    proof {
        assert(!is_hex_ref(ent@));
        assert(!is_dec_ref(ent@));
    }
    None
}

/// Unescapes all valid XML entities in a character sequence; on failure the
/// error carries the offending entity text.
#[verifier::loop_isolation(false)]
#[verifier::rlimit(50)]
pub fn unescape_chars(input: &Vec<char>) -> (r: Result<Vec<char>, Vec<char>>)
    ensures
        match r {
            Ok(v) => spec_unescape(input@) == Ok::<Seq<char>, Seq<char>>(v@),
            Err(e) => spec_unescape(input@) == Err::<Seq<char>, Seq<char>>(e@),
        },
{
    let n = input.len();
    let mut out: Vec<char> = Vec::new();
    let mut i: usize = 0;
    proof {
        assert(input@.subrange(0, n as int) =~= input@);
        if spec_unescape(input@) is Ok {
            assert(Seq::<char>::empty() + spec_unescape(input@)->Ok_0 =~= spec_unescape(
                input@,
            )->Ok_0);
        }
    }
    while i < n
        invariant
            i <= n,
            n == input@.len(),
            match spec_unescape(input@.subrange(i as int, n as int)) {
                Ok(rest) => spec_unescape(input@) == Ok::<Seq<char>, Seq<char>>(out@ + rest),
                Err(e) => spec_unescape(input@) == Err::<Seq<char>, Seq<char>>(e),
            },
        decreases n - i,
    {
        let ghost tail = input@.subrange(i as int, n as int);
        let c = input[i];
        proof {
            assert(tail[0] == input@[i as int]);
        }
        if c != '&' {
            let ghost out0 = out@;
            out.push(c);
            proof {
                lemma_unescape_cons(tail);
                assert(tail.drop_first() =~= input@.subrange(i + 1, n as int));
                let rest0 = spec_unescape(tail.drop_first());
                if rest0 is Ok {
                    assert(out@ + rest0->Ok_0 =~= out0 + (seq![tail[0]] + rest0->Ok_0));
                }
            }
            i = i + 1;
        } else {
            // Scan for the terminating `;`.
            let mut j = i + 1;
            while j < n && input[j] != ';'
                invariant
                    i < j <= n,
                    forall|k: int| i < k < j ==> input@[k] != ';',
                decreases n - j,
            {
                j = j + 1;
            }
            if j == n {
                // No terminator: fail with the unterminated tail.
                proof {
                    assert forall|k: int| 0 <= k < tail.len() implies tail[k] != ';' by {
                        assert(tail[k] == input@[i + k]);
                    }
                    lemma_unescape_amp_unterminated(tail);
                }
                let e = vec_slice(input, i, n);
                proof {
                    assert(e@ =~= tail);
                }
                return Err(e);
            }
            proof {
                assert(input@[j as int] == tail[j - i]);
                assert forall|k: int| 0 <= k < j - i implies tail[k] != ';' by {
                    assert(tail[k] == input@[i + k]);
                }
                lemma_unescape_amp(tail, j - i);
            }
            let ent = vec_slice(input, i, j + 1);
            proof {
                assert(ent@ =~= tail.subrange(0, j - i + 1));
            }
            match ent_value_chars(&ent) {
                None => {
                    return Err(ent);
                },
                Some(c2) => {
                    let ghost out0 = out@;
                    out.push(c2);
                    proof {
                        assert(tail.subrange(j - i + 1, tail.len() as int) =~= input@.subrange(
                            j + 1,
                            n as int,
                        ));
                        let rest0 = spec_unescape(input@.subrange(j + 1, n as int));
                        if rest0 is Ok {
                            assert(out@ + rest0->Ok_0 =~= out0 + (seq![c2] + rest0->Ok_0));
                        }
                    }
                    i = j + 1;
                },
            }
        }
    }
    proof {
        assert(input@.subrange(n as int, n as int) =~= Seq::<char>::empty());
        assert(out@ + Seq::<char>::empty() =~= out@);
    }
    Ok(out)
}

/// Escapes `' " & < >` with the appropriate XML entities.
pub fn escape(input: &str) -> (r: String)
    ensures
        r@ == spec_escape(input@),
{
    let chars = str_to_chars(input);
    let escaped = escape_chars(&chars);
    chars_to_string(&escaped)
}

/// Unescapes all valid XML entities in a string; on failure the error
/// carries the offending entity text.
pub fn unescape(input: &str) -> (r: Result<String, String>)
    ensures
        match r {
            Ok(v) => spec_unescape(input@) == Ok::<Seq<char>, Seq<char>>(v@),
            Err(e) => spec_unescape(input@) == Err::<Seq<char>, Seq<char>>(e@),
        },
{
    let chars = str_to_chars(input);
    match unescape_chars(&chars) {
        Ok(v) => Ok(chars_to_string(&v)),
        Err(e) => Err(chars_to_string(&e)),
    }
}

proof fn lemma_escape_snoc(s: Seq<char>)
    requires
        s.len() > 0,
    ensures
        spec_escape(s) == spec_escape(s.drop_last()) + esc_char(s.last()),
    decreases s.len(),
{
    if s.len() == 1 {
        assert(s.drop_last() =~= Seq::<char>::empty());
        assert(spec_escape(s.drop_first()) == Seq::<char>::empty());
        assert(spec_escape(s) =~= esc_char(s[0]));
        assert(spec_escape(s.drop_last()) + esc_char(s.last()) =~= esc_char(s[0]));
    } else {
        lemma_escape_snoc(s.drop_first());
        assert(s.drop_first().drop_last() =~= s.drop_last().drop_first());
        assert(s.drop_last()[0] == s[0]);
        assert(s.drop_first().last() == s.last());
        assert(spec_escape(s) == esc_char(s[0]) + spec_escape(s.drop_first()));
        assert(esc_char(s[0]) + (spec_escape(s.drop_first().drop_last()) + esc_char(s.last()))
            =~= (esc_char(s[0]) + spec_escape(s.drop_last().drop_first())) + esc_char(s.last()));
    }
}

/// Escapes `' " & < >` in a character sequence with the appropriate XML entities.
pub fn escape_chars(input: &Vec<char>) -> (r: Vec<char>)
    ensures
        r@ == spec_escape(input@),
{
    let mut result: Vec<char> = Vec::new();
    let mut i: usize = 0;
    while i < input.len()
        invariant
            i <= input.len(),
            result@ == spec_escape(input@.subrange(0, i as int)),
        decreases input.len() - i,
    {
        let c = input[i];
        if c == '&' {
            result.push('&');
            result.push('a');
            result.push('m');
            result.push('p');
            result.push(';');
        } else if c == '<' {
            result.push('&');
            result.push('l');
            result.push('t');
            result.push(';');
        } else if c == '>' {
            result.push('&');
            result.push('g');
            result.push('t');
            result.push(';');
        } else if c == '\'' {
            result.push('&');
            result.push('a');
            result.push('p');
            result.push('o');
            result.push('s');
            result.push(';');
        } else if c == '"' {
            result.push('&');
            result.push('q');
            result.push('u');
            result.push('o');
            result.push('t');
            result.push(';');
        } else {
            result.push(c);
        }
        proof {
            let pre = input@.subrange(0, i + 1);
            lemma_escape_snoc(pre);
            assert(pre.drop_last() =~= input@.subrange(0, i as int));
            assert(pre.last() == input@[i as int]);
            assert(result@ =~= spec_escape(input@.subrange(0, i as int)) + esc_char(input@[i as int]));
        }
        i = i + 1;
    }
    proof {
        assert(input@.subrange(0, input@.len() as int) =~= input@);
    }
    result
}


/// Law: unescaping an escaped text yields the original text, for every text.
pub proof fn lemma_unescape_escape(s: Seq<char>)
    ensures
        spec_unescape(spec_escape(s)) == Ok::<Seq<char>, Seq<char>>(s),
    decreases s.len(),
{
    if s.len() == 0 {
        assert(s =~= Seq::<char>::empty());
    } else {
        let c = s[0];
        let rest = spec_escape(s.drop_first());
        lemma_unescape_escape(s.drop_first());
        let full = spec_escape(s);
        assert(full == esc_char(c) + rest);
        if c == '&' {
            let pat = seq!['&', 'a', 'm', 'p', ';'];
            assert forall|k: int| 0 <= k < 4 implies full[k] != ';' by {
                assert(full[k] == pat[k]);
            }
            assert(full[4] == ';');
            lemma_unescape_amp(full, 4);
            let ent = full.subrange(0, 5);
            assert(ent =~= pat);
            assert(ent_value(ent) == Some('&'));
            assert(full.subrange(5, full.len() as int) =~= rest);
            assert(seq![c] + s.drop_first() =~= s);
        } else if c == '<' {
            let pat = seq!['&', 'l', 't', ';'];
            assert forall|k: int| 0 <= k < 3 implies full[k] != ';' by {
                assert(full[k] == pat[k]);
            }
            assert(full[3] == ';');
            lemma_unescape_amp(full, 3);
            let ent = full.subrange(0, 4);
            assert(ent =~= pat);
            assert(ent_value(ent) == Some('<'));
            assert(full.subrange(4, full.len() as int) =~= rest);
            assert(seq![c] + s.drop_first() =~= s);
        } else if c == '>' {
            let pat = seq!['&', 'g', 't', ';'];
            assert forall|k: int| 0 <= k < 3 implies full[k] != ';' by {
                assert(full[k] == pat[k]);
            }
            assert(full[3] == ';');
            lemma_unescape_amp(full, 3);
            let ent = full.subrange(0, 4);
            assert(ent =~= pat);
            assert(ent_value(ent) == Some('>'));
            assert(full.subrange(4, full.len() as int) =~= rest);
            assert(seq![c] + s.drop_first() =~= s);
        } else if c == '\'' {
            let pat = seq!['&', 'a', 'p', 'o', 's', ';'];
            assert forall|k: int| 0 <= k < 5 implies full[k] != ';' by {
                assert(full[k] == pat[k]);
            }
            assert(full[5] == ';');
            lemma_unescape_amp(full, 5);
            let ent = full.subrange(0, 6);
            assert(ent =~= pat);
            assert(ent_value(ent) == Some('\''));
            assert(full.subrange(6, full.len() as int) =~= rest);
            assert(seq![c] + s.drop_first() =~= s);
        } else if c == '"' {
            let pat = seq!['&', 'q', 'u', 'o', 't', ';'];
            assert forall|k: int| 0 <= k < 5 implies full[k] != ';' by {
                assert(full[k] == pat[k]);
            }
            assert(full[5] == ';');
            lemma_unescape_amp(full, 5);
            let ent = full.subrange(0, 6);
            assert(ent =~= pat);
            assert(ent_value(ent) == Some('"'));
            assert(full.subrange(6, full.len() as int) =~= rest);
            assert(seq![c] + s.drop_first() =~= s);
        } else {
            assert(full[0] == c);
            lemma_unescape_cons(full);
            assert(full.drop_first() =~= rest);
            assert(seq![c] + s.drop_first() =~= s);
        }
    }
}

} // verus!\n