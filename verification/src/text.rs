//! Text utilities the record processing rests on: decimal formatting,
//! lexicographic ordering of character sequences, and joining.
use vstd::prelude::*;

verus! {

/// The decimal digit `d` as a character.
pub open spec fn digit_char(d: int) -> char {
    if d == 0 {
        '0'
    } else if d == 1 {
        '1'
    } else if d == 2 {
        '2'
    } else if d == 3 {
        '3'
    } else if d == 4 {
        '4'
    } else if d == 5 {
        '5'
    } else if d == 6 {
        '6'
    } else if d == 7 {
        '7'
    } else if d == 8 {
        '8'
    } else {
        '9'
    }
}

/// The decimal digits of `n`, most significant first, no leading
/// zeros (a single `'0'` for zero).
pub open spec fn dec_digits(n: int) -> Seq<char>
    decreases n,
{
    if n < 10 {
        seq![digit_char(n)]
    } else {
        dec_digits(n / 10).push(digit_char(n % 10))
    }
}

/// The decimal digit `d` as a one-character string.
fn digit_str(d: u64) -> (r: &'static str)
    requires
        d < 10,
    ensures
        r@ =~= seq![digit_char(d as int)],
{
    proof {
        reveal_strlit("0");
        reveal_strlit("1");
        reveal_strlit("2");
        reveal_strlit("3");
        reveal_strlit("4");
        reveal_strlit("5");
        reveal_strlit("6");
        reveal_strlit("7");
        reveal_strlit("8");
        reveal_strlit("9");
    }
    if d == 0 {
        "0"
    } else if d == 1 {
        "1"
    } else if d == 2 {
        "2"
    } else if d == 3 {
        "3"
    } else if d == 4 {
        "4"
    } else if d == 5 {
        "5"
    } else if d == 6 {
        "6"
    } else if d == 7 {
        "7"
    } else if d == 8 {
        "8"
    } else {
        "9"
    }
}

/// Formats `n` in decimal.
pub fn u64_to_string(n: u64) -> (r: String)
    ensures
        r@ == dec_digits(n as int),
    decreases n,
{
    if n < 10 {
        let mut r = String::new();
        r.append(digit_str(n));
        proof {
            assert(r@ =~= dec_digits(n as int));
        }
        r
    } else {
        let mut r = u64_to_string(n / 10);
        r.append(digit_str(n % 10));
        proof {
            assert(r@ =~= dec_digits(n as int));
        }
        r
    }
}

/// Lexicographic order on character sequences, by code point; a
/// prefix comes before its extensions. Total and transitive.
pub open spec fn seq_le(a: Seq<char>, b: Seq<char>) -> bool
    decreases a.len(),
{
    if a.len() == 0 {
        true
    } else if b.len() == 0 {
        false
    } else if (a[0] as u32) < (b[0] as u32) {
        true
    } else if (a[0] as u32) > (b[0] as u32) {
        false
    } else {
        seq_le(a.drop_first(), b.drop_first())
    }
}

/// `seq_le` relates every two sequences one way or the other.
pub proof fn lemma_seq_le_total(a: Seq<char>, b: Seq<char>)
    ensures
        seq_le(a, b) || seq_le(b, a),
    decreases a.len(),
{
    if a.len() > 0 && b.len() > 0 && a[0] as u32 == b[0] as u32 {
        lemma_seq_le_total(a.drop_first(), b.drop_first());
    }
}

/// `seq_le` is transitive.
pub proof fn lemma_seq_le_trans(a: Seq<char>, b: Seq<char>, c: Seq<char>)
    requires
        seq_le(a, b),
        seq_le(b, c),
    ensures
        seq_le(a, c),
    decreases a.len(),
{
    if a.len() > 0 && b.len() > 0 && c.len() > 0 && a[0] as u32 == b[0] as u32 && b[0] as u32
        == c[0] as u32 {
        lemma_seq_le_trans(a.drop_first(), b.drop_first(), c.drop_first());
    }
}

/// Compares two strings in the `seq_le` order.
pub fn str_le(a: &str, b: &str) -> (r: bool)
    ensures
        r == seq_le(a@, b@),
{
    let n_a = a.unicode_len();
    let n_b = b.unicode_len();
    let mut i: usize = 0;
    proof {
        assert(a@.skip(0) =~= a@);
        assert(b@.skip(0) =~= b@);
    }
    loop
        invariant
            i <= n_a,
            i <= n_b,
            n_a == a@.len(),
            n_b == b@.len(),
            seq_le(a@, b@) == seq_le(a@.skip(i as int), b@.skip(i as int)),
        decreases n_a - i,
    {
        if i >= n_a {
            proof {
                assert(a@.skip(i as int).len() == 0);
            }
            return true;
        }
        if i >= n_b {
            proof {
                assert(b@.skip(i as int).len() == 0);
                assert(a@.skip(i as int).len() > 0);
            }
            return false;
        }
        let ca = a.get_char(i);
        let cb = b.get_char(i);
        proof {
            assert(a@.skip(i as int)[0] == ca);
            assert(b@.skip(i as int)[0] == cb);
        }
        if (ca as u32) < (cb as u32) {
            return true;
        }
        if (ca as u32) > (cb as u32) {
            return false;
        }
        proof {
            assert(a@.skip(i as int).drop_first() =~= a@.skip(i as int + 1));
            assert(b@.skip(i as int).drop_first() =~= b@.skip(i as int + 1));
        }
        i += 1;
    }
}

/// The parts joined with the separator between consecutive parts.
pub open spec fn join_sep(parts: Seq<Seq<char>>, sep: Seq<char>) -> Seq<char>
    decreases parts.len(),
{
    if parts.len() == 0 {
        Seq::empty()
    } else if parts.len() == 1 {
        parts[0]
    } else {
        parts[0] + sep + join_sep(parts.drop_first(), sep)
    }
}

/// Joining one more part appends a separator and the part.
pub proof fn lemma_join_push(parts: Seq<Seq<char>>, sep: Seq<char>, x: Seq<char>)
    ensures
        parts.len() == 0 ==> join_sep(parts.push(x), sep) == x,
        parts.len() > 0 ==> join_sep(parts.push(x), sep) == join_sep(parts, sep) + sep + x,
    decreases parts.len(),
{
    if parts.len() == 0 {
        assert(join_sep(parts.push(x), sep) == parts.push(x)[0]);
        assert(parts.push(x)[0] == x);
    } else {
        lemma_join_push(parts.drop_first(), sep, x);
        assert(parts.push(x).drop_first() =~= parts.drop_first().push(x));
        if parts.len() == 1 {
            assert(join_sep(parts.push(x), sep) =~= parts[0] + sep + x);
            assert(join_sep(parts, sep) == parts[0]);
        } else {
            assert(join_sep(parts.push(x), sep) == parts[0] + sep + join_sep(
                parts.drop_first().push(x),
                sep,
            ));
            assert(join_sep(parts.drop_first().push(x), sep) == join_sep(parts.drop_first(), sep)
                + sep + x);
            assert(parts[0] + sep + (join_sep(parts.drop_first(), sep) + sep + x) =~= (parts[0]
                + sep + join_sep(parts.drop_first(), sep)) + sep + x);
        }
    }
}

/// Joins the strings with the separator.
pub fn join_strings(v: &Vec<String>, sep: &str) -> (r: String)
    ensures
        r@ == join_sep(v.deep_view(), sep@),
{
    let mut r = String::new();
    let mut i: usize = 0;
    proof {
        assert(v.deep_view().len() == v@.len());
    }
    while i < v.len()
        invariant
            i <= v@.len(),
            v.deep_view().len() == v@.len(),
            r@ == join_sep(v.deep_view().take(i as int), sep@),
        decreases v@.len() - i,
    {
        let ghost before = v.deep_view().take(i as int);
        if i > 0 {
            r.append(sep);
        }
        r.append(v[i].as_str());
        proof {
            lemma_join_push(before, sep@, v.deep_view()[i as int]);
            assert(v.deep_view().take(i as int + 1) =~= before.push(v.deep_view()[i as int]));
            assert(v.deep_view()[i as int] == v@[i as int]@);
        }
        i += 1;
    }
    proof {
        assert(v.deep_view().take(v@.len() as int) =~= v.deep_view());
    }
    r
}

} // verus!
