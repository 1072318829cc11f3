//! Text primitives for the codec: splitting and joining character
//! sequences on a separator, and decimal formatting and parsing of ids.

use vstd::prelude::*;
use vstd::string::StrSliceExecFns;
use vstd::string::StringExecFns;

verus! {

// ---------------------------------------------------------------------------
// Characters and digits
// ---------------------------------------------------------------------------

/// `c` is a decimal digit.
pub open spec fn is_digit(c: char) -> bool {
    ||| c == '0'
    ||| c == '1'
    ||| c == '2'
    ||| c == '3'
    ||| c == '4'
    ||| c == '5'
    ||| c == '6'
    ||| c == '7'
    ||| c == '8'
    ||| c == '9'
}

/// The digit character for a value below ten.
pub open spec fn digit_char(d: nat) -> char {
    if d == 0 {
        '0'
    } else if d == 1 {
        '1'
    } else if d == 2 {
        '2'
    } else if d == 3 {
        '3'
    } else if d == 4 {
        '4'
    } else if d == 5 {
        '5'
    } else if d == 6 {
        '6'
    } else if d == 7 {
        '7'
    } else if d == 8 {
        '8'
    } else {
        '9'
    }
}

/// The value of a digit character; ten for a non-digit.
pub open spec fn digit_val(c: char) -> nat {
    if c == '0' {
        0
    } else if c == '1' {
        1
    } else if c == '2' {
        2
    } else if c == '3' {
        3
    } else if c == '4' {
        4
    } else if c == '5' {
        5
    } else if c == '6' {
        6
    } else if c == '7' {
        7
    } else if c == '8' {
        8
    } else if c == '9' {
        9
    } else {
        10
    }
}

/// Every character of `s` is a decimal digit.
pub open spec fn all_digits(s: Seq<char>) -> bool {
    forall|i: int| 0 <= i < s.len() ==> is_digit(#[trigger] s[i])
}

/// The character `c` does not occur in `s`.
pub open spec fn no_char(s: Seq<char>, c: char) -> bool {
    forall|i: int| 0 <= i < s.len() ==> #[trigger] s[i] != c
}

// ---------------------------------------------------------------------------
// Decimal representation of unsigned integers
// ---------------------------------------------------------------------------

/// The decimal digits of `n`, most significant first, with no leading zeros.
pub open spec fn dec_rep(n: nat) -> Seq<char>
    decreases n,
{
    if n < 10 {
        seq![digit_char(n)]
    } else {
        dec_rep(n / 10).push(digit_char(n % 10))
    }
}

/// The value of a digit string, read in decimal.
pub open spec fn dec_val(s: Seq<char>) -> nat
    decreases s.len(),
{
    if s.len() == 0 {
        0
    } else {
        dec_val(s.drop_last()) * 10 + digit_val(s.last())
    }
}

/// `s` is a decimal token that fits in a `u32`: nonempty, digits only, and
/// in range.
pub open spec fn is_u32_token(s: Seq<char>) -> bool {
    s.len() > 0 && all_digits(s) && dec_val(s) <= u32::MAX
}

/// The decimal representation of `n` is a nonempty digit string that reads
/// back as `n`.
pub proof fn lemma_dec_rep(n: nat)
    ensures
        dec_rep(n).len() >= 1,
        all_digits(dec_rep(n)),
        dec_val(dec_rep(n)) == n,
    decreases n,
{
    if n < 10 {
        let s = dec_rep(n);
        assert(s =~= seq![digit_char(n)]);
        assert(s.drop_last() =~= Seq::<char>::empty());
        assert(dec_val(s.drop_last()) == 0);
        assert(s.last() == digit_char(n));
        assert(dec_val(s) == digit_val(digit_char(n)));
        assert(digit_val(digit_char(n)) == n);
    } else {
        lemma_dec_rep(n / 10);
        let s = dec_rep(n);
        assert(s == dec_rep(n / 10).push(digit_char(n % 10)));
        assert(s.drop_last() =~= dec_rep(n / 10));
        assert(s.last() == digit_char((n % 10) as nat));
        assert(digit_val(digit_char((n % 10) as nat)) == n % 10);
        assert(dec_val(s) == (n / 10) * 10 + (n % 10));
        assert((n / 10) * 10 + (n % 10) == n) by {
            vstd::arithmetic::div_mod::lemma_fundamental_div_mod(n as int, 10);
        }
    }
}

/// A prefix of a digit string never reads as more than the whole string.
pub proof fn lemma_dec_val_prefix(s: Seq<char>, k: int)
    requires
        0 <= k <= s.len(),
    ensures
        dec_val(s.take(k)) <= dec_val(s),
    decreases s.len() - k,
{
    if k == s.len() {
        assert(s.take(k) =~= s);
    } else {
        lemma_dec_val_prefix(s, k + 1);
        assert(s.take(k + 1).drop_last() =~= s.take(k));
        assert(dec_val(s.take(k + 1)) == dec_val(s.take(k)) * 10 + digit_val(s.take(k + 1).last()));
    }
}

// ---------------------------------------------------------------------------
// Splitting and joining on a separator
// ---------------------------------------------------------------------------

/// The pieces of `s` between occurrences of `sep`, in order. Splitting the
/// empty sequence gives one empty piece, so the result is never empty.
pub open spec fn split_on(s: Seq<char>, sep: char) -> Seq<Seq<char>>
    decreases s.len(),
{
    if s.len() == 0 {
        seq![s]
    } else if s.last() == sep {
        split_on(s.drop_last(), sep).push(Seq::empty())
    } else {
        let r = split_on(s.drop_last(), sep);
        r.update(r.len() - 1, r.last().push(s.last()))
    }
}

/// The pieces joined back with `sep` between them.
pub open spec fn join_with(parts: Seq<Seq<char>>, sep: char) -> Seq<char>
    decreases parts.len(),
{
    if parts.len() == 0 {
        Seq::empty()
    } else if parts.len() == 1 {
        parts[0]
    } else {
        join_with(parts.drop_last(), sep) + seq![sep] + parts.last()
    }
}

/// A split has at least one piece.
pub proof fn lemma_split_nonempty(s: Seq<char>, sep: char)
    ensures
        split_on(s, sep).len() >= 1,
    decreases s.len(),
{
    if s.len() > 0 {
        lemma_split_nonempty(s.drop_last(), sep);
    }
}

/// Appending the separator adds one empty piece at the end.
pub proof fn lemma_split_push_sep(s: Seq<char>, sep: char)
    ensures
        split_on(s.push(sep), sep) == split_on(s, sep).push(Seq::empty()),
{
    assert(s.push(sep).drop_last() =~= s);
}

/// Appending an ordinary character extends the last piece by it.
pub proof fn lemma_split_push_char(s: Seq<char>, sep: char, c: char)
    requires
        c != sep,
    ensures
        ({
            let r = split_on(s, sep);
            split_on(s.push(c), sep) == r.update(r.len() - 1, r.last().push(c))
        }),
{
    assert(s.push(c).drop_last() =~= s);
}

/// Appending a separator-free piece extends the last piece by it.
pub proof fn lemma_split_append_free(s: Seq<char>, p: Seq<char>, sep: char)
    requires
        no_char(p, sep),
    ensures
        ({
            let r = split_on(s, sep);
            split_on(s + p, sep) == r.update(r.len() - 1, r.last() + p)
        }),
    decreases p.len(),
{
    let r = split_on(s, sep);
    lemma_split_nonempty(s, sep);
    if p.len() == 0 {
        assert(s + p =~= s);
        assert(r.last() + p =~= r.last());
        assert(r.update(r.len() - 1, r.last() + p) =~~= r);
    } else {
        let q = p.drop_last();
        assert(no_char(q, sep));
        lemma_split_append_free(s, q, sep);
        assert(s + p =~= (s + q).push(p.last()));
        lemma_split_push_char(s + q, sep, p.last());
        let r1 = split_on(s + q, sep);
        assert(r1 == r.update(r.len() - 1, r.last() + q));
        assert(r1.len() == r.len());
        assert(r1.last() == r.last() + q);
        assert((r.last() + q).push(p.last()) =~= r.last() + p);
        assert(r1.update(r1.len() - 1, r1.last().push(p.last())) =~~= r.update(
            r.len() - 1,
            r.last() + p,
        ));
    }
}

/// Splitting on `sep` undoes joining with `sep`, as long as no piece holds
/// the separator itself.
pub proof fn lemma_split_join(parts: Seq<Seq<char>>, sep: char)
    requires
        parts.len() >= 1,
        forall|i: int| 0 <= i < parts.len() ==> no_char(#[trigger] parts[i], sep),
    ensures
        split_on(join_with(parts, sep), sep) == parts,
    decreases parts.len(),
{
    if parts.len() == 1 {
        lemma_split_append_free(Seq::empty(), parts[0], sep);
        assert(Seq::<char>::empty() + parts[0] =~= parts[0]);
        let r0 = split_on(Seq::<char>::empty(), sep);
        assert(r0 =~~= seq![Seq::<char>::empty()]);
        assert(Seq::<char>::empty() + parts[0] =~= parts[0]);
        assert(split_on(parts[0], sep) =~~= parts);
    } else {
        let rest = parts.drop_last();
        assert(forall|i: int| 0 <= i < rest.len() ==> no_char(#[trigger] rest[i], sep));
        lemma_split_join(rest, sep);
        let j = join_with(rest, sep);
        assert(join_with(parts, sep) == j + seq![sep] + parts.last());
        lemma_split_push_sep(j, sep);
        assert(j + seq![sep] =~= j.push(sep));
        let r1 = split_on(j.push(sep), sep);
        assert(r1 == rest.push(Seq::<char>::empty()));
        lemma_split_append_free(j.push(sep), parts.last(), sep);
        assert(j.push(sep) + parts.last() =~= join_with(parts, sep));
        assert(r1.update(r1.len() - 1, r1.last() + parts.last()) =~~= parts);
    }
}

/// A separator-free prefix before a separator is the first piece of the
/// split.
pub proof fn lemma_split_prepend(a: Seq<char>, b: Seq<char>, sep: char)
    requires
        no_char(a, sep),
    ensures
        split_on(a + seq![sep] + b, sep) == seq![a] + split_on(b, sep),
    decreases b.len(),
{
    lemma_split_nonempty(b, sep);
    if b.len() == 0 {
        lemma_split_append_free(Seq::empty(), a, sep);
        assert(Seq::<char>::empty() + a =~= a);
        assert(split_on(a, sep) =~~= seq![a]);
        assert(a + seq![sep] + b =~= a.push(sep));
        lemma_split_push_sep(a, sep);
        assert(seq![a].push(Seq::<char>::empty()) =~~= seq![a] + split_on(b, sep));
    } else {
        let q = b.drop_last();
        lemma_split_prepend(a, q, sep);
        lemma_split_nonempty(q, sep);
        let rq = split_on(a + seq![sep] + q, sep);
        if b.last() == sep {
            assert(a + seq![sep] + b =~= (a + seq![sep] + q).push(sep));
            lemma_split_push_sep(a + seq![sep] + q, sep);
            assert(rq.push(Seq::<char>::empty()) =~~= seq![a] + split_on(b, sep));
        } else {
            assert(a + seq![sep] + b =~= (a + seq![sep] + q).push(b.last()));
            lemma_split_push_char(a + seq![sep] + q, sep, b.last());
            let rb = split_on(q, sep);
            assert(rq.update(rq.len() - 1, rq.last().push(b.last())) =~~= seq![a] + rb.update(
                rb.len() - 1,
                rb.last().push(b.last()),
            ));
        }
    }
}

/// The join of separator-free pieces holds, besides the separator, only
/// characters of the pieces; in particular a character foreign to all
/// pieces and different from the separator does not occur in it.
pub proof fn lemma_join_no_char(parts: Seq<Seq<char>>, sep: char, c: char)
    requires
        c != sep,
        forall|i: int| 0 <= i < parts.len() ==> no_char(#[trigger] parts[i], c),
    ensures
        no_char(join_with(parts, sep), c),
    decreases parts.len(),
{
    if parts.len() <= 1 {
    } else {
        let rest = parts.drop_last();
        assert(forall|i: int| 0 <= i < rest.len() ==> no_char(#[trigger] rest[i], c));
        lemma_join_no_char(rest, sep, c);
        let j = join_with(rest, sep) + seq![sep] + parts.last();
        assert forall|i: int| 0 <= i < j.len() implies #[trigger] j[i] != c by {
            let a = join_with(rest, sep);
            if i < a.len() {
                assert(j[i] == a[i]);
            } else if i == a.len() {
                assert(j[i] == sep);
            } else {
                assert(j[i] == parts.last()[i - a.len() - 1]);
            }
        }
    }
}

// ---------------------------------------------------------------------------
// Executable counterparts
// ---------------------------------------------------------------------------

/// The one-character string for a digit value.
pub fn digit_str(d: u32) -> (r: &'static str)
    requires
        d < 10,
    ensures
        r@ == seq![digit_char(d as nat)],
{
    proof {
        reveal_strlit("0");
        reveal_strlit("1");
        reveal_strlit("2");
        reveal_strlit("3");
        reveal_strlit("4");
        reveal_strlit("5");
        reveal_strlit("6");
        reveal_strlit("7");
        reveal_strlit("8");
        reveal_strlit("9");
    }
    let r: &'static str = if d == 0 {
        "0"
    } else if d == 1 {
        "1"
    } else if d == 2 {
        "2"
    } else if d == 3 {
        "3"
    } else if d == 4 {
        "4"
    } else if d == 5 {
        "5"
    } else if d == 6 {
        "6"
    } else if d == 7 {
        "7"
    } else if d == 8 {
        "8"
    } else {
        "9"
    };
    proof {
        assert(r@ =~= seq![digit_char(d as nat)]);
    }
    r
}

/// `n` printed in decimal, no leading zeros.
pub fn u32_to_string(n: u32) -> (r: String)
    ensures
        r@ == dec_rep(n as nat),
    decreases n,
{
    if n < 10 {
        String::from_str(digit_str(n))
    } else {
        let mut r = u32_to_string(n / 10);
        r.append(digit_str(n % 10));
        proof {
            assert(r@ =~= dec_rep(n as nat));
        }
        r
    }
}

/// The digit value of a character, or `None` for a non-digit.
fn char_digit(c: char) -> (r: Option<u32>)
    ensures
        match r {
            Some(d) => is_digit(c) && d < 10 && d as nat == digit_val(c),
            None => !is_digit(c),
        },
{
    if c == '0' {
        Some(0)
    } else if c == '1' {
        Some(1)
    } else if c == '2' {
        Some(2)
    } else if c == '3' {
        Some(3)
    } else if c == '4' {
        Some(4)
    } else if c == '5' {
        Some(5)
    } else if c == '6' {
        Some(6)
    } else if c == '7' {
        Some(7)
    } else if c == '8' {
        Some(8)
    } else if c == '9' {
        Some(9)
    } else {
        None
    }
}

/// Reads `s` as a decimal `u32`: `Some` exactly when `s` is nonempty, all
/// digits, and its value fits.
pub fn parse_u32(s: &str) -> (r: Option<u32>)
    ensures
        match r {
            Some(v) => is_u32_token(s@) && v as nat == dec_val(s@),
            None => !is_u32_token(s@),
        },
{
    let n = s.unicode_len();
    if n == 0 {
        return None;
    }
    let mut acc: u64 = 0;
    let mut i: usize = 0;
    while i < n
        invariant
            0 <= i <= n,
            n == s@.len(),
            all_digits(s@.take(i as int)),
            acc as nat == dec_val(s@.take(i as int)),
            acc <= u32::MAX,
        decreases n - i,
    {
        let c = s.get_char(i);
        proof {
            assert(s@.take(i + 1).drop_last() =~= s@.take(i as int));
            assert(s@.take(i + 1).last() == s@[i as int]);
        }
        match char_digit(c) {
            None => {
                proof {
                    assert(!is_digit(s@[i as int]));
                    assert(!all_digits(s@));
                }
                return None;
            },
            Some(d) => {
                acc = acc * 10 + (d as u64);
                proof {
                    assert(all_digits(s@.take(i + 1)));
                    assert(acc as nat == dec_val(s@.take(i + 1)));
                }
                if acc > 0xffff_ffffu64 {
                    proof {
                        lemma_dec_val_prefix(s@, i + 1);
                        assert(dec_val(s@) > u32::MAX);
                    }
                    return None;
                }
            },
        }
        i = i + 1;
    }
    proof {
        assert(s@.take(n as int) =~= s@);
    }
    Some(acc as u32)
}

/// Splits `s` on the character `sep`.
pub fn split_str(s: &str, sep: char) -> (parts: Vec<String>)
    ensures
        parts.deep_view() == split_on(s@, sep),
{
    let n = s.unicode_len();
    let mut parts: Vec<String> = Vec::new();
    let mut start: usize = 0;
    let mut i: usize = 0;
    while i < n
        invariant
            0 <= start <= i <= n,
            n == s@.len(),
            split_on(s@.take(i as int), sep) == parts.deep_view().push(
                s@.subrange(start as int, i as int),
            ),
        decreases n - i,
    {
        let c = s.get_char(i);
        proof {
            assert(s@.take(i + 1).drop_last() =~= s@.take(i as int));
            assert(s@.take(i + 1).last() == s@[i as int]);
        }
        if c == sep {
            let tok = s.substring_char(start, i).to_owned();
            let ghost old_parts = parts.deep_view();
            parts.push(tok);
            proof {
                assert(parts.deep_view() =~~= old_parts.push(s@.subrange(start as int, i as int)));
                assert(split_on(s@.take(i + 1), sep) =~~= parts.deep_view().push(
                    s@.subrange(i + 1, i + 1),
                ));
            }
            start = i + 1;
        } else {
            proof {
                let r = split_on(s@.take(i as int), sep);
                assert(r.last() == s@.subrange(start as int, i as int));
                assert(r.last().push(s@[i as int]) =~= s@.subrange(start as int, i + 1));
                assert(split_on(s@.take(i + 1), sep) =~~= parts.deep_view().push(
                    s@.subrange(start as int, i + 1),
                ));
            }
        }
        i = i + 1;
    }
    let tok = s.substring_char(start, n).to_owned();
    let ghost old_parts = parts.deep_view();
    parts.push(tok);
    proof {
        assert(s@.take(n as int) =~= s@);
        assert(parts.deep_view() =~~= old_parts.push(s@.subrange(start as int, n as int)));
    }
    parts
}

/// Joins `parts` with the one-character separator `sep`.
pub fn join_strs(parts: &Vec<String>, sep: &str) -> (r: String)
    requires
        sep@.len() == 1,
    ensures
        r@ == join_with(parts.deep_view(), sep@[0]),
{
    let mut out = String::new();
    if parts.len() == 0 {
        return out;
    }
    out.append(parts[0].as_str());
    proof {
        assert(parts.deep_view().take(1) =~~= seq![parts.deep_view()[0]]);
        assert(out@ == join_with(parts.deep_view().take(1), sep@[0]));
    }
    let mut i: usize = 1;
    while i < parts.len()
        invariant
            1 <= i <= parts@.len(),
            parts.deep_view().len() == parts@.len(),
            sep@.len() == 1,
            out@ == join_with(parts.deep_view().take(i as int), sep@[0]),
        decreases parts@.len() - i,
    {
        out.append(sep);
        out.append(parts[i].as_str());
        proof {
            let dv = parts.deep_view();
            assert(dv.take(i + 1).drop_last() =~~= dv.take(i as int));
            assert(dv.take(i + 1).last() == dv[i as int]);
            assert(sep@ =~= seq![sep@[0]]);
            assert(out@ =~= join_with(dv.take(i as int), sep@[0]) + seq![sep@[0]] + dv[i as int]);
        }
        i = i + 1;
    }
    proof {
        assert(parts.deep_view().take(parts@.len() as int) =~~= parts.deep_view());
    }
    out
}

/// Drops one leading `c` from `s`, if there is one.
pub open spec fn strip_lead(s: Seq<char>, c: char) -> Seq<char> {
    if s.len() >= 1 && s[0] == c {
        s.drop_first()
    } else {
        s
    }
}

/// Drops one surrounding double quote from each end of `s`, if both are
/// there.
pub open spec fn strip_quotes(s: Seq<char>) -> Seq<char> {
    if s.len() >= 2 && s[0] == '"' && s.last() == '"' {
        s.subrange(1, s.len() - 1)
    } else {
        s
    }
}

/// The text of `s` with one leading `c` stripped, if there is one.
pub fn strip_lead_str(s: &str, c: char) -> (r: String)
    ensures
        r@ == strip_lead(s@, c),
{
    let n = s.unicode_len();
    if n >= 1 && s.get_char(0) == c {
        let r = s.substring_char(1, n).to_owned();
        proof {
            assert(r@ =~= s@.drop_first());
        }
        r
    } else {
        s.to_owned()
    }
}

/// The text of `s` with one double quote stripped from each end, if both
/// are there.
pub fn strip_quotes_str(s: &str) -> (r: String)
    ensures
        r@ == strip_quotes(s@),
{
    let n = s.unicode_len();
    if n >= 2 && s.get_char(0) == '"' && s.get_char(n - 1) == '"' {
        s.substring_char(1, n - 1).to_owned()
    } else {
        s.to_owned()
    }
}

} // verus!

