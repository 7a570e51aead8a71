//! Text building blocks: decimal numerals and joined lists.

use vstd::prelude::*;

verus! {

/// The numeral of a single decimal digit.
pub open spec fn digit_text(d: int) -> Seq<char> {
    if d == 0 {
        "0"@
    } else if d == 1 {
        "1"@
    } else if d == 2 {
        "2"@
    } else if d == 3 {
        "3"@
    } else if d == 4 {
        "4"@
    } else if d == 5 {
        "5"@
    } else if d == 6 {
        "6"@
    } else if d == 7 {
        "7"@
    } else if d == 8 {
        "8"@
    } else {
        "9"@
    }
}

/// The decimal numeral of `n`, without leading zeros.
pub open spec fn decimal_text(n: nat) -> Seq<char>
    decreases n,
{
    if n < 10 {
        digit_text(n as int)
    } else {
        decimal_text(n / 10) + digit_text((n % 10) as int)
    }
}

/// The decimal numeral of `n`, padded with a zero to at least two digits.
pub open spec fn two_digit_text(n: nat) -> Seq<char> {
    if n < 10 {
        "0"@ + digit_text(n as int)
    } else {
        decimal_text(n)
    }
}

/// `parts` joined with `sep` between neighbours.
pub open spec fn joined(parts: Seq<Seq<char>>, sep: Seq<char>) -> Seq<char>
    decreases parts.len(),
{
    if parts.len() == 0 {
        Seq::empty()
    } else if parts.len() == 1 {
        parts[0]
    } else {
        joined(parts.drop_last(), sep) + sep + parts.last()
    }
}

/// The views of a list of strings.
pub open spec fn texts(v: Seq<String>) -> Seq<Seq<char>> {
    Seq::new(v.len(), |i: int| v[i]@)
}

fn digit_str(d: u64) -> (s: &'static str)
    requires
        d < 10,
    ensures
        s@ == digit_text(d as int),
{
    if d == 0 {
        "0"
    } else if d == 1 {
        "1"
    } else if d == 2 {
        "2"
    } else if d == 3 {
        "3"
    } else if d == 4 {
        "4"
    } else if d == 5 {
        "5"
    } else if d == 6 {
        "6"
    } else if d == 7 {
        "7"
    } else if d == 8 {
        "8"
    } else {
        "9"
    }
}

/// Appends the decimal numeral of `n` to `out`.
pub fn push_decimal(out: &mut String, n: u64)
    ensures
        final(out)@ == old(out)@ + decimal_text(n as nat),
    decreases n,
{
    if n < 10 {
        out.append(digit_str(n));
    } else {
        push_decimal(out, n / 10);
        out.append(digit_str(n % 10));
    }
}

/// Appends the numeral of `n`, zero-padded to two digits, to `out`.
pub fn push_two_digits(out: &mut String, n: u64)
    ensures
        final(out)@ == old(out)@ + two_digit_text(n as nat),
{
    if n < 10 {
        out.append("0");
    }
    push_decimal(out, n);
}

/// Appends the strings of `parts`, with `sep` between neighbours, to `out`.
pub fn push_joined(out: &mut String, parts: &Vec<String>, sep: &str)
    ensures
        final(out)@ == old(out)@ + joined(texts(parts@), sep@),
{
    let mut i: usize = 0;
    while i < parts.len()
        invariant
            i <= parts.len(),
            out@ == old(out)@ + joined(texts(parts@).take(i as int), sep@),
        decreases parts.len() - i,
    {
        proof {
            let all = texts(parts@);
            assert(all.take(i as int + 1).drop_last() =~= all.take(i as int));
            assert(all.take(i as int + 1).last() == parts@[i as int]@);
        }
        if i > 0 {
            out.append(sep);
        }
        out.append(parts[i].as_str());
        i = i + 1;
    }
    proof {
        assert(texts(parts@).take(parts.len() as int) =~= texts(parts@));
    }
}

/// `==` on string slices holds exactly when both hold the same characters in
/// the same order.
#[verifier::external_body]
pub(crate) fn str_eq(a: &str, b: &str) -> (same: bool)
    ensures
        same == (a@ == b@),
{
    a == b
}

/// The position of the first `true` at or after `from`.
pub open spec fn first_hit_from(hits: Seq<bool>, from: int) -> Option<int>
    decreases hits.len() - from,
{
    if from < 0 || from >= hits.len() {
        None
    } else if hits[from] {
        Some(from)
    } else {
        first_hit_from(hits, from + 1)
    }
}

/// The position of the first `true`.
pub open spec fn first_hit(hits: Seq<bool>) -> Option<int> {
    first_hit_from(hits, 0)
}

/// The first hit is a hit, nothing before it is, and without a hit there is
/// no first one.
pub proof fn lemma_first_hit(hits: Seq<bool>, from: int)
    requires
        0 <= from,
    ensures
        match first_hit_from(hits, from) {
            Some(i) => from <= i < hits.len() && hits[i] && forall|j: int|
                from <= j < i ==> !hits[j],
            None => forall|j: int| from <= j < hits.len() ==> !hits[j],
        },
    decreases hits.len() - from,
{
    if from < hits.len() && !hits[from] {
        lemma_first_hit(hits, from + 1);
    }
}

/// A hit with nothing but misses before it is the first hit.
pub proof fn lemma_first_hit_at(hits: Seq<bool>, i: int)
    requires
        0 <= i < hits.len(),
        hits[i],
        forall|j: int| 0 <= j < i ==> !hits[j],
    ensures
        first_hit(hits) == Some(i),
{
    lemma_first_hit(hits, 0);
}

/// Whether `needle` occurs in `haystack`.
pub fn contains_text(haystack: &Vec<String>, needle: &str) -> (found: bool)
    ensures
        found == texts(haystack@).contains(needle@),
{
    let mut i: usize = 0;
    while i < haystack.len()
        invariant
            i <= haystack.len(),
            forall|j: int| 0 <= j < i ==> texts(haystack@)[j] != needle@,
        decreases haystack.len() - i,
    {
        if str_eq(haystack[i].as_str(), needle) {
            assert(texts(haystack@)[i as int] == needle@);
            return true;
        }
        i = i + 1;
    }
    false
}

} // verus!
