use vstd::prelude::*;

verus! {

/// The character of a decimal digit.
pub open spec fn digit_char(d: nat) -> char {
    if d == 0 { '0' }
    else if d == 1 { '1' }
    else if d == 2 { '2' }
    else if d == 3 { '3' }
    else if d == 4 { '4' }
    else if d == 5 { '5' }
    else if d == 6 { '6' }
    else if d == 7 { '7' }
    else if d == 8 { '8' }
    else { '9' }
}

/// The decimal notation of a natural number, without leading zeros
/// (zero itself is written `0`).
#[verifier::opaque]
pub open spec fn decimal(n: nat) -> Seq<char>
    decreases n,
{
    if n < 10 {
        seq![digit_char(n)]
    } else {
        decimal(n / 10).push(digit_char(n % 10))
    }
}

fn digit(d: u64) -> (c: char)
    requires
        d < 10,
    ensures
        c == digit_char(d as nat),
{
    if d == 0 { '0' }
    else if d == 1 { '1' }
    else if d == 2 { '2' }
    else if d == 3 { '3' }
    else if d == 4 { '4' }
    else if d == 5 { '5' }
    else if d == 6 { '6' }
    else if d == 7 { '7' }
    else if d == 8 { '8' }
    else { '9' }
}

/// Appends one character to a string.
#[verifier::external_body]
pub(crate) fn push_char(s: &mut String, c: char)
    ensures
        final(s)@ == old(s)@.push(c),
{
    s.push(c);
}

/// Appends the decimal notation of `n` to `s`.
pub fn push_decimal(s: &mut String, n: u64)
    ensures
        final(s)@ == old(s)@ + decimal(n as nat),
    decreases n,
{
    reveal(decimal);
    if n < 10 {
        push_char(s, digit(n));
        assert(decimal(n as nat) == seq![digit_char(n as nat)]);
        assert(old(s)@.push(digit_char(n as nat)) =~= old(s)@ + seq![digit_char(n as nat)]);
    } else {
        push_decimal(s, n / 10);
        push_char(s, digit(n % 10));
        assert(old(s)@ + decimal(n as nat) =~= (old(s)@ + decimal((n / 10) as nat)).push(digit_char((n % 10) as nat)));
    }
}

/// Appends characters.
pub fn push_chars(s: &mut String, t: &[char])
    ensures
        final(s)@ == old(s)@ + t@,
{
    let mut k: usize = 0;
    while k < t.len()
        invariant
            0 <= k <= t@.len(),
            s@ == old(s)@ + t@.take(k as int),
        decreases t@.len() - k,
    {
        push_char(s, t[k]);
        proof {
            assert(t@.take(k + 1) =~= t@.take(k as int).push(t@[k as int]));
        }
        k += 1;
    }
    proof {
        assert(t@.take(k as int) =~= t@);
    }
}

/// Appends a string.
pub fn push_string(s: &mut String, t: &String)
    ensures
        final(s)@ == old(s)@ + t@,
{
    s.append(t.as_str());
}

/// The decimal notation of an integer, with a minus sign when negative.
pub open spec fn signed_decimal(n: int) -> Seq<char> {
    if n < 0 {
        seq!['-'] + decimal((-n) as nat)
    } else {
        decimal(n as nat)
    }
}

/// Appends the decimal notation of `n`, with a minus sign when negative.
pub fn push_signed_decimal(s: &mut String, n: i32)
    ensures
        final(s)@ == old(s)@ + signed_decimal(n as int),
{
    if n < 0 {
        push_char(s, '-');
        let m: i64 = -(n as i64);
        push_decimal(s, m as u64);
        assert(final(s)@ =~= old(s)@ + signed_decimal(n as int));
    } else {
        push_decimal(s, n as u64);
    }
}

/// The words of `s` between single spaces: two spaces in a row, or a space
/// at either end, give an empty word.
pub open spec fn split_spaces(s: Seq<char>) -> Seq<Seq<char>>
    decreases s.len(),
{
    if s.len() == 0 {
        seq![Seq::empty()]
    } else if s[0] == ' ' {
        seq![Seq::<char>::empty()] + split_spaces(s.drop_first())
    } else {
        let rest = split_spaces(s.drop_first());
        rest.update(0, seq![s[0]] + rest[0])
    }
}

/// `split_spaces` gives at least one word.
pub proof fn lemma_split_spaces_nonempty(s: Seq<char>)
    ensures
        split_spaces(s).len() >= 1,
    decreases s.len(),
{
    if s.len() > 0 {
        lemma_split_spaces_nonempty(s.drop_first());
    }
}

/// `ws` with `c` put before its first word.
pub open spec fn prefix_first(c: Seq<char>, ws: Seq<Seq<char>>) -> Seq<Seq<char>> {
    ws.update(0, c + ws[0])
}

/// The views of strings.
pub open spec fn string_views(v: Seq<String>) -> Seq<Seq<char>> {
    v.map_values(|s: String| s@)
}

/// The words of `s` between single spaces, as `str::split(" ")` gives them.
pub fn split_spaces_exec(s: &str) -> (r: Vec<String>)
    ensures
        string_views(r@) == split_spaces(s@),
{
    let n = s.unicode_len();
    let mut words: Vec<String> = Vec::new();
    let mut cur = String::new();
    let mut i: usize = 0;
    proof {
        assert(s@.skip(0) =~= s@);
        lemma_split_spaces_nonempty(s@);
        assert(prefix_first(cur@, split_spaces(s@)) =~= split_spaces(s@));
    }
    while i < n
        invariant
            n == s@.len(),
            0 <= i <= n,
            string_views(words@) + prefix_first(cur@, split_spaces(s@.skip(i as int))) == split_spaces(s@),
        decreases n - i,
    {
        let c = s.get_char(i);
        let ghost x = split_spaces(s@.skip(i + 1));
        let ghost pre_words = string_views(words@);
        proof {
            assert(s@.skip(i as int).drop_first() =~= s@.skip(i + 1));
            assert(s@.skip(i as int)[0] == c);
            lemma_split_spaces_nonempty(s@.skip(i + 1));
        }
        if c == ' ' {
            let ghost w = cur@;
            words.push(cur);
            cur = String::new();
            proof {
                assert(split_spaces(s@.skip(i as int)) =~= seq![Seq::<char>::empty()] + x);
                assert(prefix_first(w, seq![Seq::<char>::empty()] + x) =~= seq![w] + x);
                assert(prefix_first(cur@, x) =~= x);
                assert(string_views(words@) =~= pre_words.push(w));
                assert(string_views(words@) + prefix_first(cur@, x) =~= pre_words + prefix_first(w, split_spaces(s@.skip(i as int))));
            }
        } else {
            let ghost w = cur@;
            push_char(&mut cur, c);
            proof {
                assert(split_spaces(s@.skip(i as int)) =~= x.update(0, seq![c] + x[0]));
                assert(w + (seq![c] + x[0]) =~= cur@ + x[0]);
                assert(prefix_first(w, x.update(0, seq![c] + x[0])) =~= prefix_first(cur@, x));
            }
        }
        i += 1;
    }
    proof {
        assert(s@.skip(n as int) =~= Seq::<char>::empty());
    }
    let ghost pre_words = string_views(words@);
    let ghost w = cur@;
    words.push(cur);
    proof {
        assert(prefix_first(w, split_spaces(Seq::<char>::empty())) =~= seq![w]);
        assert(string_views(words@) =~= pre_words.push(w));
    }
    words
}

} // verus!
