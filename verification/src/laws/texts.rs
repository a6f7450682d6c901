//! Normalized tasks, decimal numbers and the order of texts.
use crate::text;
use vstd::prelude::*;
use vstd::utf8::*;

verus! {

/// `core` is what is left of `s` without the white space at either end.
pub open spec fn is_core(core: Seq<char>, s: Seq<char>) -> bool {
    exists|i: int, j: int|
        {
            &&& 0 <= i <= j <= s.len()
            &&& core == #[trigger] s.subrange(i, j)
            &&& forall|k: int| 0 <= k < i ==> text::is_white_space(#[trigger] s[k])
            &&& forall|k: int| j <= k < s.len() ==> text::is_white_space(#[trigger] s[k])
            &&& i < j ==> !text::is_white_space(s[i]) && !text::is_white_space(s[j - 1])
        }
}

proof fn lemma_leading(s: Seq<char>) -> (i: int)
    ensures
        0 <= i <= s.len(),
        text::without_leading(s) == s.skip(i),
        forall|k: int| 0 <= k < i ==> text::is_white_space(#[trigger] s[k]),
        i < s.len() ==> !text::is_white_space(s[i]),
    decreases s.len(),
{
    if s.len() > 0 && text::is_white_space(s.first()) {
        let rest = s.drop_first();
        let i = lemma_leading(rest);
        assert(rest.skip(i) =~= s.skip(i + 1));
        assert forall|k: int| 0 <= k < i + 1 implies text::is_white_space(#[trigger] s[k]) by {
            if k > 0 {
                assert(rest[k - 1] == s[k]);
            }
        }
        i + 1
    } else {
        assert(s.skip(0) =~= s);
        0
    }
}

proof fn lemma_trailing(s: Seq<char>) -> (j: int)
    ensures
        0 <= j <= s.len(),
        text::without_trailing(s) == s.take(j),
        forall|k: int| j <= k < s.len() ==> text::is_white_space(#[trigger] s[k]),
        j > 0 ==> !text::is_white_space(s[j - 1]),
    decreases s.len(),
{
    if s.len() > 0 && text::is_white_space(s.last()) {
        let rest = s.drop_last();
        let j = lemma_trailing(rest);
        assert(rest.take(j) =~= s.take(j));
        assert forall|k: int| j <= k < s.len() implies text::is_white_space(#[trigger] s[k]) by {
            if k < rest.len() {
                assert(rest[k] == s[k]);
            }
        }
        j
    } else {
        assert(s.take(s.len() as int) =~= s);
        s.len() as int
    }
}

/// Trimming leaves what stands between the white space at the ends.
pub proof fn law_trimmed(s: Seq<char>)
    ensures
        is_core(text::trimmed(s), s),
{
    let i = lemma_leading(s);
    let rest = s.skip(i);
    let j = lemma_trailing(rest);
    assert(text::trimmed(s) =~= s.subrange(i, i + j));
    assert forall|k: int| i + j <= k < s.len() implies text::is_white_space(#[trigger] s[k]) by {
        assert(rest[k - i] == s[k]);
    }
    if 0 < j {
        assert(rest[0] == s[i]);
        assert(rest[j - 1] == s[i + j - 1]);
    }
}

/// There is only one text between the white space at the ends.
pub proof fn law_one_core(a: Seq<char>, b: Seq<char>, s: Seq<char>)
    requires
        is_core(a, s),
        is_core(b, s),
    ensures
        a == b,
{
    let (i, j) = choose|i: int, j: int|
        {
            &&& 0 <= i <= j <= s.len()
            &&& a == #[trigger] s.subrange(i, j)
            &&& forall|k: int| 0 <= k < i ==> text::is_white_space(#[trigger] s[k])
            &&& forall|k: int| j <= k < s.len() ==> text::is_white_space(#[trigger] s[k])
            &&& i < j ==> !text::is_white_space(s[i]) && !text::is_white_space(s[j - 1])
        };
    let (x, y) = choose|x: int, y: int|
        {
            &&& 0 <= x <= y <= s.len()
            &&& b == #[trigger] s.subrange(x, y)
            &&& forall|k: int| 0 <= k < x ==> text::is_white_space(#[trigger] s[k])
            &&& forall|k: int| y <= k < s.len() ==> text::is_white_space(#[trigger] s[k])
            &&& x < y ==> !text::is_white_space(s[x]) && !text::is_white_space(s[y - 1])
        };
    if i < j && x < y {
        assert(i == x);
        assert(j == y);
    } else if i < j {
        assert(text::is_white_space(s[i]));
    } else if x < y {
        assert(text::is_white_space(s[x]));
    } else {
        assert(a =~= b);
    }
}

/// In lower case an ASCII text has a small letter for each capital and is otherwise unchanged; any
/// other text is what `str::to_lowercase` makes of it.
pub proof fn law_lowercase(s: Seq<char>)
    ensures
        !is_ascii_chars(s) ==> text::lowercase(s) == text::unicode_lowercase(s),
        is_ascii_chars(s) ==> text::lowercase(s).len() == s.len() && forall|i: int|
            0 <= i < s.len() ==> (#[trigger] text::lowercase(s)[i]) as u32 == s[i] as u32 + (if 'A'
                <= s[i] <= 'Z' {
                32int
            } else {
                0
            }),
{
}

/// A normalized task is the lower case of the text between the white space at its ends.
pub proof fn law_normalized_task(s: &str, r: String, core: Seq<char>)
    requires
        call_ensures(text::normalize_task, (s,), r),
        is_core(core, s@),
    ensures
        r@ == text::lowercase(core),
{
    law_trimmed(s@);
    law_one_core(core, text::trimmed(s@), s@);
}

/// The number that a text of digits stands for.
pub open spec fn number(s: Seq<char>) -> int
    decreases s.len(),
{
    if s.len() == 0 {
        0
    } else {
        number(s.drop_last()) * 10 + (s.last() as u32 - '0' as u32)
    }
}

/// A number is written in digits that stand for it, without a leading zero.
pub proof fn law_decimal(n: nat)
    ensures
        number(text::decimal(n)) == n,
        text::decimal(n).len() > 0,
        forall|i: int|
            0 <= i < text::decimal(n).len() ==> '0' <= #[trigger] text::decimal(n)[i] <= '9',
        n > 0 ==> text::decimal(n).first() != '0',
    decreases n,
{
    let s = text::decimal(n);
    if n < 10 {
        assert(s.drop_last() =~= Seq::empty());
        reveal_with_fuel(number, 2);
    } else {
        law_decimal(n / 10);
        assert(s.drop_last() =~= text::decimal(n / 10));
        assert forall|i: int| 0 <= i < s.len() implies '0' <= #[trigger] s[i] <= '9' by {
            if i < s.len() - 1 {
                assert(s[i] == text::decimal(n / 10)[i]);
            }
        }
    }
}

/// One text comes before another where it has the smaller character at the first position at which
/// they differ, or where it ends there.
pub proof fn law_text_order(a: Seq<char>, b: Seq<char>)
    ensures
        text::text_before(a, b) <==> exists|k: int|
            {
                &&& 0 <= k <= a.len()
                &&& k < b.len()
                &&& #[trigger] a.take(k) == b.take(k)
                &&& k == a.len() || a[k] < b[k]
            },
    decreases a.len(),
{
    if a.len() > 0 && b.len() > 0 && a.first() == b.first() {
        let x = a.drop_first();
        let y = b.drop_first();
        law_text_order(x, y);
        if text::text_before(a, b) {
            let k = choose|k: int|
                {
                    &&& 0 <= k <= x.len()
                    &&& k < y.len()
                    &&& #[trigger] x.take(k) == y.take(k)
                    &&& k == x.len() || x[k] < y[k]
                };
            assert forall|i: int| 0 <= i < k + 1 implies a[i] == b[i] by {
                if i > 0 {
                    assert(x.take(k)[i - 1] == y.take(k)[i - 1]);
                }
            }
            assert(a.take(k + 1) =~= b.take(k + 1));
        }
        if exists|k: int|
            {
                &&& 0 <= k <= a.len()
                &&& k < b.len()
                &&& #[trigger] a.take(k) == b.take(k)
                &&& k == a.len() || a[k] < b[k]
            } {
            let k = choose|k: int|
                {
                    &&& 0 <= k <= a.len()
                    &&& k < b.len()
                    &&& #[trigger] a.take(k) == b.take(k)
                    &&& k == a.len() || a[k] < b[k]
                };
            assert(k > 0);
            assert forall|i: int| 0 <= i < k - 1 implies x[i] == y[i] by {
                assert(a.take(k)[i + 1] == b.take(k)[i + 1]);
            }
            assert(x.take(k - 1) =~= y.take(k - 1));
        }
    } else {
        assert(a.take(0) =~= b.take(0));
        assert forall|k: int|
            0 < k <= a.len() && k < b.len() implies #[trigger] a.take(k) != b.take(k) by {
            assert(a.take(k)[0] == a[0] && b.take(k)[0] == b[0]);
        }
    }
}

} // verus!
