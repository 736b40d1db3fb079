//! What reading a name is for: laws of trimming, of the rank a spell name ends in, and of the keys that
//! names are compared by.
use crate::buffs_shapes::{
    base_of, last_space, line_of, name_key, numeral, numeral_tens, numeral_units, numeral_value,
    numeral_value_from, rank_of,
};
use crate::text::{js_space, lower, trim_end, trim_start, trimmed};
use vstd::prelude::*;

verus! {

// ---- white space -----------------------------------------------------------------------------

proof fn lemma_trim_start(s: Seq<char>)
    ensures
        exists|i: int|
            0 <= i <= s.len() && #[trigger] s.skip(i) == trim_start(s) && forall|j: int|
                0 <= j < i ==> js_space(#[trigger] s[j]),
        trim_start(s).len() > 0 ==> !js_space(trim_start(s)[0]),
    decreases s.len(),
{
    if s.len() > 0 && js_space(s[0]) {
        let t = s.drop_first();
        lemma_trim_start(t);
        let i = choose|i: int|
            0 <= i <= t.len() && #[trigger] t.skip(i) == trim_start(t) && forall|j: int|
                0 <= j < i ==> js_space(#[trigger] t[j]);
        assert(s.skip(i + 1) =~= t.skip(i));
        assert forall|j: int| 0 <= j < i + 1 implies js_space(#[trigger] s[j]) by {
            if j > 0 {
                assert(t[j - 1] == s[j]);
            }
        }
    } else {
        assert(s.skip(0) =~= s);
    }
}

proof fn lemma_trim_end(s: Seq<char>)
    ensures
        exists|i: int|
            0 <= i <= s.len() && #[trigger] s.take(i) == trim_end(s) && forall|j: int|
                i <= j < s.len() ==> js_space(#[trigger] s[j]),
        trim_end(s).len() > 0 ==> !js_space(trim_end(s).last()),
    decreases s.len(),
{
    if s.len() > 0 && js_space(s.last()) {
        let t = s.drop_last();
        lemma_trim_end(t);
        let i = choose|i: int|
            0 <= i <= t.len() && #[trigger] t.take(i) == trim_end(t) && forall|j: int|
                i <= j < t.len() ==> js_space(#[trigger] t[j]);
        assert(s.take(i) =~= t.take(i));
        assert forall|j: int| i <= j < s.len() implies js_space(#[trigger] s[j]) by {
            if j < t.len() {
                assert(t[j] == s[j]);
            } else {
                assert(s[j] == s.last());
            }
        }
    } else {
        assert(s.take(s.len() as int) =~= s);
    }
}

/// What is trimmed off a text is the white space at its two ends, and all of it; what is left is as it
/// stood.
pub proof fn trimming_takes_the_white_space_at_the_ends(s: Seq<char>)
    ensures
        exists|i: int, j: int|
            0 <= i <= j <= s.len() && #[trigger] s.subrange(i, j) == trimmed(s) && (forall|k: int|
                0 <= k < i ==> js_space(#[trigger] s[k])) && (forall|k: int|
                j <= k < s.len() ==> js_space(#[trigger] s[k])),
        trimmed(s).len() > 0 ==> !js_space(trimmed(s)[0]) && !js_space(trimmed(s).last()),
{
    lemma_trim_start(s);
    let t = trim_start(s);
    lemma_trim_end(t);
    let i = choose|i: int|
        0 <= i <= s.len() && #[trigger] s.skip(i) == t && forall|j: int|
            0 <= j < i ==> js_space(#[trigger] s[j]);
    let n = choose|n: int|
        0 <= n <= t.len() && #[trigger] t.take(n) == trim_end(t) && forall|j: int|
            n <= j < t.len() ==> js_space(#[trigger] t[j]);
    assert(s.subrange(i, i + n) =~= trimmed(s));
    assert forall|k: int| i + n <= k < s.len() implies js_space(#[trigger] s[k]) by {
        assert(t[k - i] == s[k]);
    }
    if trimmed(s).len() > 0 {
        assert(trimmed(s)[0] == t[0]);
    }
}

/// The plain white space is white space, and no letter, digit or sign of the printable Latin range is.
pub proof fn printable_is_no_white_space(c: char)
    ensures
        c as int == 32 || 9 <= c as int <= 13 ==> js_space(c),
        33 <= c as int <= 126 ==> !js_space(c),
        c as int <= 8 || 14 <= c as int <= 31 ==> !js_space(c),
{
}

// ---- ranks -----------------------------------------------------------------------------------

/// What a letter of a roman numeral up to thirty-nine stands for.
pub open spec fn letter_worth(c: char) -> int {
    if c == 'I' {
        1
    } else if c == 'V' {
        5
    } else if c == 'X' {
        10
    } else {
        0
    }
}

/// What roman letters add up to: a letter before one that is worth more is taken off.
pub open spec fn roman_worth(s: Seq<char>) -> int
    decreases s.len(),
{
    if s.len() == 0 {
        0
    } else if s.len() > 1 && letter_worth(s[0]) < letter_worth(s[1]) {
        roman_worth(s.drop_first()) - letter_worth(s[0])
    } else {
        roman_worth(s.drop_first()) + letter_worth(s[0])
    }
}

proof fn lemma_ten_more(s: Seq<char>)
    ensures
        roman_worth(seq!['X'] + s) == 10 + roman_worth(s),
{
    assert((seq!['X'] + s).drop_first() =~= s);
}

proof fn lemma_units(u: int)
    requires
        0 <= u <= 9,
    ensures
        roman_worth(numeral_units(u)) == u,
{
    reveal_strlit("");
    reveal_strlit("I");
    reveal_strlit("II");
    reveal_strlit("III");
    reveal_strlit("IV");
    reveal_strlit("V");
    reveal_strlit("VI");
    reveal_strlit("VII");
    reveal_strlit("VIII");
    reveal_strlit("IX");
    reveal_with_fuel(roman_worth, 5);
}

/// A roman numeral is worth the number it is the numeral of.
pub proof fn a_numeral_is_worth_its_number(n: int)
    requires
        1 <= n <= 39,
    ensures
        roman_worth(numeral(n)) == n,
        numeral_value(numeral(n)) == n,
{
    lemma_numeral_worth(n);
    lemma_first_is_the_number(n, 1);
}

proof fn lemma_numeral_worth(n: int)
    requires
        1 <= n <= 39,
    ensures
        roman_worth(numeral(n)) == n,
{
    reveal_strlit("");
    reveal_strlit("X");
    reveal_strlit("XX");
    reveal_strlit("XXX");
    let (t, u) = (n / 10, numeral_units(n % 10));
    lemma_units(n % 10);
    let x = seq!['X'];
    lemma_ten_more(u);
    lemma_ten_more(x + u);
    lemma_ten_more(x + (x + u));
    assert(numeral_tens(0) + u =~= u);
    assert(numeral_tens(1) + u =~= x + u);
    assert(numeral_tens(2) + u =~= x + (x + u));
    assert(numeral_tens(3) + u =~= x + (x + (x + u)));
}

proof fn lemma_first_is_the_number(n: int, from: int)
    requires
        1 <= from <= n <= 39,
    ensures
        numeral_value_from(numeral(n), from) == n,
    decreases n - from,
{
    if numeral(from) == numeral(n) {
        lemma_numeral_worth(from);
        lemma_numeral_worth(n);
    } else {
        lemma_first_is_the_number(n, from + 1);
    }
}

proof fn lemma_value_is_worth(s: Seq<char>, from: int)
    requires
        from >= 1,
    ensures
        numeral_value_from(s, from) > 0 ==> numeral_value_from(s, from) >= from && numeral(
            numeral_value_from(s, from),
        ) == s && roman_worth(s) == numeral_value_from(s, from),
        numeral_value_from(s, from) == 0 ==> forall|n: int|
            from <= n <= 39 ==> #[trigger] numeral(n) != s,
    decreases 40 - from,
{
    if from <= 39 {
        if numeral(from) == s {
            lemma_numeral_worth(from);
        } else {
            lemma_value_is_worth(s, from + 1);
        }
    }
}

proof fn lemma_last_space_is(s: Seq<char>)
    ensures
        -1 <= last_space(s) < s.len(),
        last_space(s) >= 0 ==> s[last_space(s)] == ' ',
        forall|j: int| last_space(s) < j < s.len() ==> s[j] != ' ',
    decreases s.len(),
{
    if s.len() > 0 && s.last() != ' ' {
        lemma_last_space_is(s.drop_last());
        assert forall|j: int| last_space(s) < j < s.len() implies s[j] != ' ' by {
            if j < s.drop_last().len() {
                assert(s.drop_last()[j] == s[j]);
            }
        }
    }
}

/// The rank of a spell name is what the roman numeral after its last space is worth, and a name that does
/// not end in one has none. The base is the name without it, and without the space before it.
pub proof fn a_rank_is_the_numeral_a_name_ends_in(name: Seq<char>)
    ensures
        ({
            let t = trimmed(name);
            let r = rank_of(name);
            &&& 0 <= r <= 39
            &&& r > 0 ==> exists|p: int|
                0 <= p < t.len() && t[p] == ' ' && (forall|j: int| p < j < t.len() ==> t[j] != ' ')
                    && roman_worth(#[trigger] t.skip(p + 1)) == r && numeral(r) == t.skip(p + 1)
                    && base_of(name) == trim_end(t.take(p))
            &&& r == 0 ==> base_of(name) == t
            &&& line_of(name) == lower(base_of(name))
            &&& name_key(name) == lower(t)
        }),
{
    let t = trimmed(name);
    let p = last_space(t);
    lemma_last_space_is(t);
    crate::buffs_shapes::lemma_rank_range(name);
    if p >= 0 {
        lemma_value_is_worth(t.skip(p + 1), 1);
    }
}

/// A name with a numeral behind its last space has that rank, whatever stands before.
pub proof fn a_numeral_behind_a_space_is_the_rank(name: Seq<char>, head: Seq<char>, n: int)
    requires
        1 <= n <= 39,
        trimmed(name) == head + seq![' '] + numeral(n),
    ensures
        rank_of(name) == n,
        base_of(name) == trim_end(head),
{
    let t = trimmed(name);
    lemma_last_space_is(t);
    lemma_numeral_holds_no_space(n);
    let p = head.len() as int;
    assert(t[p] == ' ');
    assert forall|j: int| p < j < t.len() implies t[j] != ' ' by {
        assert(t[j] == numeral(n)[j - p - 1]);
    }
    assert(last_space(t) == p);
    assert(t.skip(p + 1) =~= numeral(n));
    assert(t.take(p) =~= head);
    a_numeral_is_worth_its_number(n);
}

proof fn lemma_numeral_holds_no_space(n: int)
    requires
        1 <= n <= 39,
    ensures
        forall|j: int| 0 <= j && j < numeral(n).len() ==> numeral(n)[j] != ' ',
{
    reveal_strlit("");
    reveal_strlit("X");
    reveal_strlit("XX");
    reveal_strlit("XXX");
    reveal_strlit("I");
    reveal_strlit("II");
    reveal_strlit("III");
    reveal_strlit("IV");
    reveal_strlit("V");
    reveal_strlit("VI");
    reveal_strlit("VII");
    reveal_strlit("VIII");
    reveal_strlit("IX");
    let (a, b) = (numeral_tens(n / 10), numeral_units(n % 10));
    assert forall|j: int| 0 <= j && j < numeral(n).len() implies numeral(n)[j] != ' ' by {
        if j < a.len() {
            assert(numeral(n)[j] == a[j]);
        } else {
            assert(numeral(n)[j] == b[j - a.len()]);
        }
    }
}

} // verus!
