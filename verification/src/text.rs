//! Text: trimming, lowercasing, substrings and the order of strings.
//!
//! A string is modelled by its sequence of characters. What the standard library computes on
//! strings is stated here once; everything else in the crate is proved from these statements.
use vstd::prelude::*;
use vstd::utf8::*;

verus! {

/// The characters with the Unicode property `White_Space`.
pub open spec fn is_white_space(c: char) -> bool {
    let p = c as u32;
    ||| 0x9 <= p <= 0xd
    ||| p == 0x20
    ||| p == 0x85
    ||| p == 0xa0
    ||| p == 0x1680
    ||| 0x2000 <= p <= 0x200a
    ||| p == 0x2028
    ||| p == 0x2029
    ||| p == 0x202f
    ||| p == 0x205f
    ||| p == 0x3000
}

/// `s` without its leading white space.
pub open spec fn without_leading(s: Seq<char>) -> Seq<char>
    decreases s.len(),
{
    if s.len() > 0 && is_white_space(s.first()) {
        without_leading(s.drop_first())
    } else {
        s
    }
}

/// `s` without its trailing white space.
pub open spec fn without_trailing(s: Seq<char>) -> Seq<char>
    decreases s.len(),
{
    if s.len() > 0 && is_white_space(s.last()) {
        without_trailing(s.drop_last())
    } else {
        s
    }
}

/// `s` without the white space at either end.
pub open spec fn trimmed(s: Seq<char>) -> Seq<char> {
    without_trailing(without_leading(s))
}

/// The ASCII letter `c` in lower case; any other character as it is.
pub open spec fn ascii_lower(c: char) -> char {
    if 'A' <= c <= 'Z' {
        (c as u32 + 32) as char
    } else {
        c
    }
}

/// The lower case of a text that holds a character outside ASCII: what `str::to_lowercase`
/// returns for it.
pub uninterp spec fn unicode_lowercase(s: Seq<char>) -> Seq<char>;

/// The lower case of `s`.
pub open spec fn lowercase(s: Seq<char>) -> Seq<char> {
    if is_ascii_chars(s) {
        s.map_values(|c: char| ascii_lower(c))
    } else {
        unicode_lowercase(s)
    }
}

/// The form in which two task descriptions are compared.
pub open spec fn normalized(s: Seq<char>) -> Seq<char> {
    lowercase(trimmed(s))
}

/// `part` stands in `whole` from position `i` on.
pub open spec fn occurs_at(part: Seq<char>, whole: Seq<char>, i: int) -> bool {
    &&& 0 <= i <= whole.len() - part.len()
    &&& whole.subrange(i, i + part.len()) == part
}

/// `part` stands somewhere in `whole`.
pub open spec fn is_substring(part: Seq<char>, whole: Seq<char>) -> bool {
    exists|i: int| occurs_at(part, whole, i)
}

/// `a` comes strictly before `b`: at the first position where they differ it has the smaller
/// code point, or it is a proper prefix of `b`.
pub open spec fn text_before(a: Seq<char>, b: Seq<char>) -> bool
    decreases a.len(),
{
    if b.len() == 0 {
        false
    } else if a.len() == 0 {
        true
    } else if a.first() == b.first() {
        text_before(a.drop_first(), b.drop_first())
    } else {
        a.first() < b.first()
    }
}

/// The digit for `d`, from 0 to 9.
pub open spec fn digit(d: nat) -> char {
    ('0' as u32 + d) as char
}

/// `n` in decimal digits.
pub open spec fn decimal(n: nat) -> Seq<char>
    decreases n,
{
    if n < 10 {
        seq![digit(n)]
    } else {
        decimal(n / 10).push(digit(n % 10))
    }
}

/// What an optional string holds.
pub open spec fn opt_view(s: Option<String>) -> Option<Seq<char>> {
    match s {
        Some(t) => Some(t@),
        None => None,
    }
}

/// `std`'s conversion of a string slice to a `String` keeps the characters.
pub assume_specification<'b>[ <String as std::convert::From<&'b str>>::from ](
    s: &str,
) -> (r: String)
    ensures
        r@ == s@,
;

/// `std`'s conversion of a value to its own type returns the value unchanged.
pub assume_specification<A>[ <A as std::convert::From<A>>::from ](t: A) -> (r: A)
    ensures
        r == t,
;

/// `str::trim` drops the white space at either end and nothing else.
pub assume_specification[ str::trim ](s: &str) -> (r: &str)
    ensures
        r@ == trimmed(s@),
;

/// `str::to_lowercase` maps the letters `A` to `Z` of an ASCII text to `a` to `z` and keeps its
/// other characters. Of any other text nothing is said but that the result depends on the text
/// alone.
#[verifier::external_body]
pub(crate) fn to_lowercase(s: &str) -> (r: String)
    ensures
        is_ascii_chars(s@) ==> r@ == s@.map_values(|c: char| ascii_lower(c)),
        !is_ascii_chars(s@) ==> r@ == unicode_lowercase(s@),
{
    s.to_lowercase()
}

/// `str::contains` with a string pattern tells whether the pattern stands somewhere in the text.
#[verifier::external_body]
pub(crate) fn contains_text(whole: &str, part: &str) -> (r: bool)
    ensures
        r == is_substring(part@, whole@),
{
    whole.contains(part)
}

/// `<` on strings compares them by their bytes, which orders them by their code points.
#[verifier::external_body]
pub(crate) fn is_before(a: &str, b: &str) -> (r: bool)
    ensures
        r == text_before(a@, b@),
{
    a < b
}

/// `std::str::from_utf8` accepts exactly the valid UTF-8 and returns the text that it encodes.
#[verifier::external_body]
pub(crate) fn utf8_text(bytes: &[u8]) -> (r: Option<&str>)
    ensures
        r is Some <==> valid_utf8(bytes@),
        r matches Some(t) ==> t@ == decode_utf8(bytes@),
{
    std::str::from_utf8(bytes).ok()
}

/// Normalize a task string for fuzzy matching: trim whitespace and lowercase.
pub fn normalize_task(s: &str) -> (r: String)
    ensures
        r@ == normalized(s@),
{
    to_lowercase(s.trim())
}

/// The digit for `d`.
fn digit_text(d: usize) -> (r: &'static str)
    requires
        d < 10,
    ensures
        r@ == seq![digit(d as nat)],
{
    proof {
        reveal_strlit("0");
        reveal_strlit("1");
        reveal_strlit("2");
        reveal_strlit("3");
        reveal_strlit("4");
        reveal_strlit("5");
        reveal_strlit("6");
        reveal_strlit("7");
        reveal_strlit("8");
        reveal_strlit("9");
    }
    let r = match d {
        0 => "0",
        1 => "1",
        2 => "2",
        3 => "3",
        4 => "4",
        5 => "5",
        6 => "6",
        7 => "7",
        8 => "8",
        _ => "9",
    };
    assert(r@ =~= seq![digit(d as nat)]);
    r
}

/// `n` in decimal digits.
pub(crate) fn decimal_text(n: usize) -> (r: String)
    ensures
        r@ == decimal(n as nat),
    decreases n,
{
    if n < 10 {
        String::from(digit_text(n))
    } else {
        let mut r = decimal_text(n / 10);
        r.append(digit_text(n % 10));
        assert(r@ =~= decimal(n as nat / 10).push(digit(n as nat % 10)));
        r
    }
}

/// A copy of an optional string.
pub(crate) fn clone_text(s: &Option<String>) -> (r: Option<String>)
    ensures
        opt_view(r) == opt_view(*s),
{
    match s {
        Some(t) => Some(t.clone()),
        None => None,
    }
}

/// No string comes before itself.
pub proof fn lemma_before_irreflexive(a: Seq<char>)
    ensures
        !text_before(a, a),
    decreases a.len(),
{
    if a.len() > 0 {
        lemma_before_irreflexive(a.drop_first());
    }
}

/// The order of strings is transitive.
pub proof fn lemma_before_transitive(a: Seq<char>, b: Seq<char>, c: Seq<char>)
    requires
        text_before(a, b),
        text_before(b, c),
    ensures
        text_before(a, c),
    decreases a.len(),
{
    if a.len() > 0 && a.first() == b.first() && b.first() == c.first() {
        lemma_before_transitive(a.drop_first(), b.drop_first(), c.drop_first());
    }
}

/// Of two different strings one comes before the other.
pub proof fn lemma_before_total(a: Seq<char>, b: Seq<char>)
    ensures
        a == b || text_before(a, b) || text_before(b, a),
    decreases a.len(),
{
    if a.len() > 0 && b.len() > 0 && a.first() == b.first() {
        lemma_before_total(a.drop_first(), b.drop_first());
        if a.drop_first() == b.drop_first() {
            assert(a =~= seq![a.first()] + a.drop_first());
            assert(b =~= seq![b.first()] + b.drop_first());
        }
    } else if a.len() == 0 && b.len() == 0 {
        assert(a =~= b);
    }
}

/// All characters of `s` are white space.
pub open spec fn is_blank(s: Seq<char>) -> bool {
    forall|i: int| 0 <= i < s.len() ==> is_white_space(#[trigger] s[i])
}

/// `a` and `b` are ASCII texts that differ at most in the case of their letters.
pub open spec fn differ_in_case(a: Seq<char>, b: Seq<char>) -> bool {
    &&& is_ascii_chars(a)
    &&& is_ascii_chars(b)
    &&& a.len() == b.len()
    &&& forall|i: int| 0 <= i < a.len() ==> ascii_lower(#[trigger] a[i]) == ascii_lower(b[i])
}

proof fn lemma_leading_blank(pad: Seq<char>, s: Seq<char>)
    requires
        is_blank(pad),
    ensures
        without_leading(pad + s) == without_leading(s),
    decreases pad.len(),
{
    if pad.len() == 0 {
        assert(pad + s =~= s);
    } else {
        assert(is_white_space(pad[0]));
        assert((pad + s).drop_first() =~= pad.drop_first() + s);
        assert forall|i: int| 0 <= i < pad.drop_first().len() implies is_white_space(
            #[trigger] pad.drop_first()[i],
        ) by {
            assert(is_white_space(pad[i + 1]));
        }
        lemma_leading_blank(pad.drop_first(), s);
    }
}

proof fn lemma_trailing_blank(s: Seq<char>, pad: Seq<char>)
    requires
        is_blank(pad),
    ensures
        without_trailing(s + pad) == without_trailing(s),
    decreases pad.len(),
{
    if pad.len() == 0 {
        assert(s + pad =~= s);
    } else {
        assert(is_white_space(pad[pad.len() - 1]));
        assert((s + pad).drop_last() =~= s + pad.drop_last());
        assert forall|i: int| 0 <= i < pad.drop_last().len() implies is_white_space(
            #[trigger] pad.drop_last()[i],
        ) by {
            assert(is_white_space(pad[i]));
        }
        lemma_trailing_blank(s, pad.drop_last());
    }
}

proof fn lemma_trimmed_before_blank(s: Seq<char>, pad: Seq<char>)
    requires
        is_blank(pad),
    ensures
        trimmed(s + pad) == trimmed(s),
    decreases s.len(),
{
    if s.len() == 0 {
        assert(s + pad =~= pad + s);
        lemma_leading_blank(pad, s);
    } else if is_white_space(s.first()) {
        assert((s + pad).drop_first() =~= s.drop_first() + pad);
        lemma_trimmed_before_blank(s.drop_first(), pad);
    } else {
        lemma_trailing_blank(s, pad);
    }
}

/// White space around a task makes no difference.
pub proof fn law_blank_margins(before: Seq<char>, s: Seq<char>, after: Seq<char>)
    requires
        is_blank(before),
        is_blank(after),
    ensures
        trimmed(before + s + after) == trimmed(s),
        normalized(before + s + after) == normalized(s),
{
    lemma_trimmed_before_blank(before + s, after);
    lemma_leading_blank(before, s);
}

proof fn lemma_leading_case(a: Seq<char>, b: Seq<char>)
    requires
        differ_in_case(a, b),
    ensures
        differ_in_case(without_leading(a), without_leading(b)),
    decreases a.len(),
{
    if a.len() > 0 {
        assert(ascii_lower(a[0]) == ascii_lower(b[0]));
        if is_white_space(a.first()) {
            let x = a.drop_first();
            let y = b.drop_first();
            assert forall|i: int| 0 <= i < x.len() implies ascii_lower(#[trigger] x[i])
                == ascii_lower(y[i]) by {
                assert(ascii_lower(a[i + 1]) == ascii_lower(b[i + 1]));
            }
            lemma_leading_case(x, y);
        }
    }
}

proof fn lemma_trailing_case(a: Seq<char>, b: Seq<char>)
    requires
        differ_in_case(a, b),
    ensures
        differ_in_case(without_trailing(a), without_trailing(b)),
    decreases a.len(),
{
    if a.len() > 0 {
        let n = a.len() - 1;
        assert(ascii_lower(a[n]) == ascii_lower(b[n]));
        if is_white_space(a.last()) {
            let x = a.drop_last();
            let y = b.drop_last();
            assert forall|i: int| 0 <= i < x.len() implies ascii_lower(#[trigger] x[i])
                == ascii_lower(y[i]) by {
                assert(ascii_lower(a[i]) == ascii_lower(b[i]));
            }
            lemma_trailing_case(x, y);
        }
    }
}

proof fn lemma_lowercase_case(a: Seq<char>, b: Seq<char>)
    requires
        differ_in_case(a, b),
    ensures
        lowercase(a) == lowercase(b),
{
    assert(lowercase(a) =~= lowercase(b)) by {
        assert forall|i: int| 0 <= i < a.len() implies lowercase(a)[i] == lowercase(b)[i] by {
            assert(ascii_lower(a[i]) == ascii_lower(b[i]));
        }
    }
}

/// The case of ASCII letters makes no difference, neither to a text in lower case nor to a task.
pub proof fn law_letter_case(a: Seq<char>, b: Seq<char>)
    requires
        differ_in_case(a, b),
    ensures
        lowercase(a) == lowercase(b),
        normalized(a) == normalized(b),
{
    lemma_lowercase_case(a, b);
    lemma_leading_case(a, b);
    lemma_trailing_case(without_leading(a), without_leading(b));
    lemma_lowercase_case(trimmed(a), trimmed(b));
}

/// `s` neither begins nor ends with white space.
pub open spec fn has_no_margins(s: Seq<char>) -> bool {
    s.len() > 0 ==> !is_white_space(s.first()) && !is_white_space(s.last())
}

proof fn lemma_without_leading(s: Seq<char>)
    ensures
        without_leading(s).len() > 0 ==> !is_white_space(without_leading(s).first()),
    decreases s.len(),
{
    if s.len() > 0 && is_white_space(s.first()) {
        lemma_without_leading(s.drop_first());
    }
}

proof fn lemma_without_trailing(s: Seq<char>)
    ensures
        without_trailing(s).len() <= s.len(),
        without_trailing(s) == s.take(without_trailing(s).len() as int),
        without_trailing(s).len() > 0 ==> !is_white_space(without_trailing(s).last()),
    decreases s.len(),
{
    if s.len() > 0 && is_white_space(s.last()) {
        let shorter = s.drop_last();
        lemma_without_trailing(shorter);
        let n = without_trailing(shorter).len() as int;
        assert(shorter.take(n) =~= s.take(n));
    } else {
        assert(s.take(s.len() as int) =~= s);
    }
}

proof fn lemma_no_margins_left(s: Seq<char>)
    requires
        has_no_margins(s),
    ensures
        trimmed(s) == s,
{
}

/// A trimmed text has no white space at either end, and trimming it again changes nothing.
pub proof fn law_trimmed_twice(s: Seq<char>)
    ensures
        has_no_margins(trimmed(s)),
        trimmed(trimmed(s)) == trimmed(s),
{
    lemma_without_leading(s);
    lemma_without_trailing(without_leading(s));
    lemma_no_margins_left(trimmed(s));
}

/// A task that has been normalized has no white space at either end, and normalizing it again
/// changes nothing, where the text between its margins is ASCII. Of the lower case of other text
/// only its name is known.
pub proof fn law_normalized_twice(s: Seq<char>)
    requires
        is_ascii_chars(trimmed(s)),
    ensures
        has_no_margins(normalized(s)),
        normalized(normalized(s)) == normalized(s),
{
    let t = trimmed(s);
    let low = lowercase(t);
    law_trimmed_twice(s);
    assert(low =~= t.map_values(|c: char| ascii_lower(c)));
    assert forall|i: int| 0 <= i < low.len() implies ascii_lower(low[i]) == low[i] && is_white_space(
        low[i],
    ) == is_white_space(t[i]) && (low[i] as u32) < 0x80 by {
        assert(low[i] == ascii_lower(t[i]));
    }
    assert(is_ascii_chars(low));
    lemma_no_margins_left(low);
    assert(lowercase(low) =~= low);
}

} // verus!
