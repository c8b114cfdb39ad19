use vstd::prelude::*;
use vstd::string::StrSliceExecFns;
use vstd::string::StringExecFns;

verus! {

/// Lexicographic order on character sequences, comparing code points.
pub open spec fn lex_le(a: Seq<char>, b: Seq<char>) -> bool
    decreases a.len(),
{
    if a.len() == 0 {
        true
    } else if b.len() == 0 {
        false
    } else if (a[0] as u32) < (b[0] as u32) {
        true
    } else if (a[0] as u32) > (b[0] as u32) {
        false
    } else {
        lex_le(a.drop_first(), b.drop_first())
    }
}

pub proof fn lemma_lex_le_total(a: Seq<char>, b: Seq<char>)
    ensures
        lex_le(a, b) || lex_le(b, a),
    decreases a.len(),
{
    if a.len() != 0 && b.len() != 0 && (a[0] as u32) == (b[0] as u32) {
        lemma_lex_le_total(a.drop_first(), b.drop_first());
    }
}

proof fn lemma_char_code_injective(c1: char, c2: char)
    requires
        c1 as u32 == c2 as u32,
    ensures
        c1 == c2,
{
}

pub proof fn lemma_lex_le_antisym(a: Seq<char>, b: Seq<char>)
    requires
        lex_le(a, b),
        lex_le(b, a),
    ensures
        a == b,
    decreases a.len(),
{
    if a.len() == 0 {
        assert(b.len() == 0);
        assert(a =~= b);
    } else {
        assert(b.len() != 0);
        assert((a[0] as u32) == (b[0] as u32)) by {
            if (a[0] as u32) < (b[0] as u32) {
                assert(!lex_le(b, a));
            } else if (a[0] as u32) > (b[0] as u32) {
                assert(!lex_le(a, b));
            }
        }
        lemma_char_code_injective(a[0], b[0]);
        lemma_lex_le_antisym(a.drop_first(), b.drop_first());
        assert(a =~= b) by {
            assert(forall|i: int|
                1 <= i < a.len() ==> a[i] == a.drop_first()[i - 1] && b[i] == b.drop_first()[i
                    - 1]);
        }
    }
}

pub proof fn lemma_lex_le_trans(a: Seq<char>, b: Seq<char>, c: Seq<char>)
    requires
        lex_le(a, b),
        lex_le(b, c),
    ensures
        lex_le(a, c),
    decreases a.len(),
{
    if a.len() != 0 {
        assert(b.len() != 0);
        assert(c.len() != 0);
        if (a[0] as u32) == (b[0] as u32) && (b[0] as u32) == (c[0] as u32) {
            lemma_lex_le_trans(a.drop_first(), b.drop_first(), c.drop_first());
        }
    }
}

/// Comparing two sequences that agree on their first `i` characters
/// comes down to comparing what is left after those characters.
pub proof fn lemma_lex_le_skip(a: Seq<char>, b: Seq<char>, i: int)
    requires
        0 <= i <= a.len(),
        i <= b.len(),
        forall|k: int| 0 <= k < i ==> a[k] == b[k],
    ensures
        lex_le(a, b) == lex_le(a.skip(i), b.skip(i)),
    decreases i,
{
    if i > 0 {
        assert(a[0] == b[0]);
        lemma_lex_le_skip(a.drop_first(), b.drop_first(), i - 1);
        assert(a.drop_first().skip(i - 1) =~= a.skip(i));
        assert(b.drop_first().skip(i - 1) =~= b.skip(i));
    } else {
        assert(a.skip(0) =~= a);
        assert(b.skip(0) =~= b);
    }
}

/// Decides `lex_le` on two string slices.
pub fn str_lex_le(a: &str, b: &str) -> (r: bool)
    ensures
        r == lex_le(a@, b@),
{
    let alen = a.unicode_len();
    let blen = b.unicode_len();
    let mut i: usize = 0;
    loop
        invariant
            i <= alen,
            i <= blen,
            alen == a@.len(),
            blen == b@.len(),
            forall|k: int| 0 <= k < i ==> a@[k] == b@[k],
        decreases alen - i,
    {
        proof {
            lemma_lex_le_skip(a@, b@, i as int);
        }
        if i == alen {
            return true;
        }
        if i == blen {
            assert(a@.skip(i as int).len() != 0);
            return false;
        }
        let ca = a.get_char(i);
        let cb = b.get_char(i);
        assert(a@.skip(i as int)[0] == a@[i as int]);
        assert(b@.skip(i as int)[0] == b@[i as int]);
        if (ca as u32) < (cb as u32) {
            return true;
        }
        if (ca as u32) > (cb as u32) {
            return false;
        }
        assert(ca == cb);
        i += 1;
    }
}

/// The character for one decimal digit.
pub open spec fn digit_char(d: int) -> char {
    if d == 0 {
        '0'
    } else if d == 1 {
        '1'
    } else if d == 2 {
        '2'
    } else if d == 3 {
        '3'
    } else if d == 4 {
        '4'
    } else if d == 5 {
        '5'
    } else if d == 6 {
        '6'
    } else if d == 7 {
        '7'
    } else if d == 8 {
        '8'
    } else {
        '9'
    }
}

/// The decimal rendering of a nonnegative integer, without leading zeros.
pub open spec fn dec_chars(n: int) -> Seq<char>
    recommends
        n >= 0,
    decreases n,
{
    if n < 10 {
        seq![digit_char(n)]
    } else {
        dec_chars(n / 10).push(digit_char(n % 10))
    }
}

/// Renders an integer in decimal.
pub fn dec_u64(n: u64) -> (r: String)
    ensures
        r@ == dec_chars(n as int),
    decreases n,
{
    let table = "0123456789";
    proof {
        reveal_strlit("0123456789");
        assert(table.is_ascii());
    }
    if n < 10 {
        let d = table.substring_ascii(n as usize, n as usize + 1);
        assert(d@ =~= seq![digit_char(n as int)]);
        String::from_str(d)
    } else {
        let mut s = dec_u64(n / 10);
        let m = (n % 10) as usize;
        let d = table.substring_ascii(m, m + 1);
        assert(d@ =~= seq![digit_char(n as int % 10)]);
        s.append(d);
        assert(s@ =~= dec_chars(n as int));
        s
    }
}

pub proof fn lemma_dec_chars_len(n: int)
    requires
        n >= 0,
    ensures
        dec_chars(n).len() >= 1,
        (n < 10) <==> (dec_chars(n).len() == 1),
    decreases n,
{
    if n >= 10 {
        lemma_dec_chars_len(n / 10);
    }
}

/// Distinct numbers have distinct decimal renderings.
pub proof fn lemma_dec_chars_injective(n1: int, n2: int)
    requires
        n1 >= 0,
        n2 >= 0,
        dec_chars(n1) == dec_chars(n2),
    ensures
        n1 == n2,
    decreases n1,
{
    lemma_dec_chars_len(n1);
    lemma_dec_chars_len(n2);
    if n1 < 10 && n2 < 10 {
        assert(dec_chars(n1) =~= seq![digit_char(n1)]);
        assert(dec_chars(n2) =~= seq![digit_char(n2)]);
        assert(digit_char(n1) == dec_chars(n1)[0]);
        assert(digit_char(n2) == dec_chars(n2)[0]);
        assert(digit_char(n1) == digit_char(n2));
    } else if n1 >= 10 && n2 >= 10 {
        assert(dec_chars(n1) =~= dec_chars(n1 / 10).push(digit_char(n1 % 10)));
        assert(dec_chars(n2) =~= dec_chars(n2 / 10).push(digit_char(n2 % 10)));
        assert(dec_chars(n1).last() == digit_char(n1 % 10));
        assert(dec_chars(n2).last() == digit_char(n2 % 10));
        assert(digit_char(n1 % 10) == digit_char(n2 % 10));
        assert(n1 % 10 == n2 % 10);
        assert(dec_chars(n1).drop_last() =~= dec_chars(n1 / 10));
        assert(dec_chars(n2).drop_last() =~= dec_chars(n2 / 10));
        lemma_dec_chars_injective(n1 / 10, n2 / 10);
    }
}

/// Appending to a common prefix keeps distinct suffixes distinct.
pub proof fn lemma_concat_left_cancel(p: Seq<char>, a: Seq<char>, b: Seq<char>)
    requires
        p + a == p + b,
    ensures
        a == b,
{
    assert((p + a).len() == p.len() + a.len());
    assert((p + b).len() == p.len() + b.len());
    assert(a.len() == b.len());
    assert(a =~= b) by {
        assert(forall|i: int|
            0 <= i < a.len() ==> a[i] == (p + a)[p.len() + i] && b[i] == (p + b)[p.len() + i]);
    }
}

} // verus!
