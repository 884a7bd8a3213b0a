//! Ordering and rendering of plain text.
//!
//! Room and device names are ordered lexicographically by character
//! (code point), which fixes the enumeration order of the topology.
//! Numeric readings are fixed-point integers and are rendered in
//! decimal here.

use vstd::prelude::*;

verus! {

/// Strict lexicographic order on character sequences: `a` comes
/// before `b` when `a` is a strict prefix of `b`, or when at the
/// first differing position `a` holds the smaller code point.
pub open spec fn lex_lt(a: Seq<char>, b: Seq<char>) -> bool
    decreases a.len(),
{
    if b.len() == 0 {
        false
    } else if a.len() == 0 {
        true
    } else if a[0] < b[0] {
        true
    } else if a[0] != b[0] {
        false
    } else {
        lex_lt(a.skip(1), b.skip(1))
    }
}

/// The order is irreflexive: no sequence comes before itself.
pub proof fn lemma_lex_irrefl(a: Seq<char>)
    ensures
        !lex_lt(a, a),
    decreases a.len(),
{
    if a.len() > 0 {
        lemma_lex_irrefl(a.skip(1));
    }
}

/// The order is total: two distinct sequences are ordered one way or
/// the other.
pub proof fn lemma_lex_trichotomy(a: Seq<char>, b: Seq<char>)
    ensures
        lex_lt(a, b) || lex_lt(b, a) || a == b,
    decreases a.len(),
{
    if a.len() == 0 && b.len() == 0 {
        assert(a =~= b);
    } else if a.len() > 0 && b.len() > 0 {
        if a[0] == b[0] {
            lemma_lex_trichotomy(a.skip(1), b.skip(1));
            if a.skip(1) == b.skip(1) {
                assert(a.skip(1).len() == a.len() - 1);
                assert(b.skip(1).len() == b.len() - 1);
                assert forall|i: int| 0 <= i < a.len() implies a[i] == b[i] by {
                    if i > 0 {
                        assert(a[i] == a.skip(1)[i - 1]);
                        assert(b[i] == b.skip(1)[i - 1]);
                    }
                }
                assert(a =~= b);
            }
        }
    }
}

/// The order is transitive.
pub proof fn lemma_lex_trans(a: Seq<char>, b: Seq<char>, c: Seq<char>)
    requires
        lex_lt(a, b),
        lex_lt(b, c),
    ensures
        lex_lt(a, c),
    decreases a.len(),
{
    if a.len() > 0 && b.len() > 0 && c.len() > 0 && a[0] == b[0] && b[0] == c[0] {
        lemma_lex_trans(a.skip(1), b.skip(1), c.skip(1));
    }
}

/// A shared prefix does not affect the order of what follows it.
pub proof fn lemma_lex_common_prefix(a: Seq<char>, b: Seq<char>, k: int)
    requires
        0 <= k <= a.len(),
        k <= b.len(),
        forall|i: int| 0 <= i < k ==> a[i] == b[i],
    ensures
        lex_lt(a, b) == lex_lt(a.skip(k), b.skip(k)),
    decreases k,
{
    if k > 0 {
        assert(a[0] == b[0]);
        assert forall|i: int| 0 <= i < k - 1 implies a.skip(1)[i] == b.skip(1)[i] by {
            assert(a.skip(1)[i] == a[i + 1]);
            assert(b.skip(1)[i] == b[i + 1]);
        }
        lemma_lex_common_prefix(a.skip(1), b.skip(1), k - 1);
        assert(a.skip(1).skip(k - 1) =~= a.skip(k));
        assert(b.skip(1).skip(k - 1) =~= b.skip(k));
        assert(lex_lt(a, b) == lex_lt(a.skip(1), b.skip(1)));
    } else {
        assert(a.skip(0) =~= a);
        assert(b.skip(0) =~= b);
    }
}

/// Compares two names; true when `a` comes strictly before `b` in
/// lexicographic order.
pub fn str_lt(a: &str, b: &str) -> (r: bool)
    ensures
        r == lex_lt(a@, b@),
{
    let la = a.unicode_len();
    let lb = b.unicode_len();
    let mut i: usize = 0;
    while i < la && i < lb
        invariant
            la == a@.len(),
            lb == b@.len(),
            i <= la,
            i <= lb,
            forall|k: int| 0 <= k < i ==> a@[k] == b@[k],
        decreases la - i,
    {
        let ca = a.get_char(i);
        let cb = b.get_char(i);
        if ca != cb {
            proof {
                lemma_lex_common_prefix(a@, b@, i as int);
            }
            return ca < cb;
        }
        i += 1;
    }
    proof {
        lemma_lex_common_prefix(a@, b@, if la < lb { la as int } else { lb as int });
    }
    la < lb
}

/// How often a character occurs in a sequence.
pub open spec fn count_char(s: Seq<char>, c: char) -> nat
    decreases s.len(),
{
    if s.len() == 0 {
        0
    } else {
        count_char(s.drop_last(), c) + (if s.last() == c {
            1nat
        } else {
            0nat
        })
    }
}

/// A sequence in which a character does not occur holds zero of it.
pub proof fn lemma_count_char_absent(s: Seq<char>, c: char)
    requires
        forall|i: int| 0 <= i < s.len() ==> s[i] != c,
    ensures
        count_char(s, c) == 0,
    decreases s.len(),
{
    if s.len() > 0 {
        lemma_count_char_absent(s.drop_last(), c);
    }
}

/// Counting distributes over concatenation.
pub proof fn lemma_count_char_concat(a: Seq<char>, b: Seq<char>, c: char)
    ensures
        count_char(a + b, c) == count_char(a, c) + count_char(b, c),
    decreases b.len(),
{
    if b.len() == 0 {
        assert(a + b =~= a);
    } else {
        assert((a + b).drop_last() =~= a + b.drop_last());
        assert((a + b).last() == b.last());
        lemma_count_char_concat(a, b.drop_last(), c);
    }
}

/// A text with no line break in it.
pub open spec fn newline_free(s: Seq<char>) -> bool {
    forall|i: int| 0 <= i < s.len() ==> s[i] != '\n'
}

/// Two texts without line breaks concatenate to one without.
pub proof fn lemma_newline_free_concat(a: Seq<char>, b: Seq<char>)
    requires
        newline_free(a),
        newline_free(b),
    ensures
        newline_free(a + b),
{
    assert forall|i: int| 0 <= i < (a + b).len() implies (a + b)[i] != '\n' by {
        if i < a.len() {
            assert((a + b)[i] == a[i]);
        } else {
            assert((a + b)[i] == b[i - a.len()]);
        }
    }
}

/// The character for one decimal digit.
pub open spec fn digit_char(d: nat) -> char {
    if d == 0 { '0' }
    else if d == 1 { '1' }
    else if d == 2 { '2' }
    else if d == 3 { '3' }
    else if d == 4 { '4' }
    else if d == 5 { '5' }
    else if d == 6 { '6' }
    else if d == 7 { '7' }
    else if d == 8 { '8' }
    else { '9' }
}

/// The decimal rendering of a natural number, most significant digit
/// first, with no leading zeros (except for zero itself).
pub open spec fn dec_str(n: nat) -> Seq<char>
    decreases n,
{
    if n < 10 {
        seq![digit_char(n)]
    } else {
        dec_str(n / 10) + seq![digit_char(n % 10)]
    }
}

fn digit_str(d: u64) -> (r: &'static str)
    requires
        d < 10,
    ensures
        r@ =~= seq![digit_char(d as nat)],
{
    proof {
        reveal_strlit("0");
        reveal_strlit("1");
        reveal_strlit("2");
        reveal_strlit("3");
        reveal_strlit("4");
        reveal_strlit("5");
        reveal_strlit("6");
        reveal_strlit("7");
        reveal_strlit("8");
        reveal_strlit("9");
    }
    match d {
        0 => "0",
        1 => "1",
        2 => "2",
        3 => "3",
        4 => "4",
        5 => "5",
        6 => "6",
        7 => "7",
        8 => "8",
        _ => "9",
    }
}

/// Renders a natural number in decimal.
pub fn u64_to_dec(n: u64) -> (s: String)
    ensures
        s@ == dec_str(n as nat),
    decreases n,
{
    if n < 10 {
        digit_str(n).to_owned()
    } else {
        let mut s = u64_to_dec(n / 10);
        s.append(digit_str(n % 10));
        proof {
            assert(s@ =~= dec_str(n as nat));
        }
        s
    }
}

/// The decimal rendering of a reading held in tenths of a unit, with
/// one digit after the point: 233 tenths render as `23.3`.
pub open spec fn tenths_str(v: int) -> Seq<char> {
    if v < 0 {
        seq!['-'] + tenths_abs((-v) as nat)
    } else {
        tenths_abs(v as nat)
    }
}

/// The rendering of a non-negative count of tenths.
pub open spec fn tenths_abs(m: nat) -> Seq<char> {
    dec_str(m / 10) + seq!['.'] + seq![digit_char(m % 10)]
}

/// The decimal rendering of a reading held in hundredths of a unit,
/// with two digits after the point: 7 hundredths render as `0.07`.
pub open spec fn hundredths_str(v: int) -> Seq<char> {
    if v < 0 {
        seq!['-'] + hundredths_abs((-v) as nat)
    } else {
        hundredths_abs(v as nat)
    }
}

/// The rendering of a non-negative count of hundredths.
pub open spec fn hundredths_abs(m: nat) -> Seq<char> {
    dec_str(m / 100) + seq!['.'] + seq![digit_char((m / 10) % 10)] + seq![digit_char(m % 10)]
}

/// A decimal rendering holds only digits, a sign and a point, never
/// a line break.
pub proof fn lemma_dec_str_newline_free(n: nat)
    ensures
        newline_free(dec_str(n)),
    decreases n,
{
    if n >= 10 {
        lemma_dec_str_newline_free(n / 10);
        lemma_newline_free_concat(dec_str(n / 10), seq![digit_char(n % 10)]);
    }
}

/// A fixed-point rendering in tenths holds no line break.
pub proof fn lemma_tenths_str_newline_free(v: int)
    ensures
        newline_free(tenths_str(v)),
{
    let m: nat = if v < 0 {
        (-v) as nat
    } else {
        v as nat
    };
    lemma_dec_str_newline_free(m / 10);
    lemma_newline_free_concat(dec_str(m / 10), seq!['.']);
    lemma_newline_free_concat(dec_str(m / 10) + seq!['.'], seq![digit_char(m % 10)]);
    if v < 0 {
        lemma_newline_free_concat(seq!['-'], tenths_abs(m));
    }
}

/// A fixed-point rendering in hundredths holds no line break.
pub proof fn lemma_hundredths_str_newline_free(v: int)
    ensures
        newline_free(hundredths_str(v)),
{
    let m: nat = if v < 0 {
        (-v) as nat
    } else {
        v as nat
    };
    lemma_dec_str_newline_free(m / 100);
    lemma_newline_free_concat(dec_str(m / 100), seq!['.']);
    lemma_newline_free_concat(dec_str(m / 100) + seq!['.'], seq![digit_char((m / 10) % 10)]);
    lemma_newline_free_concat(
        dec_str(m / 100) + seq!['.'] + seq![digit_char((m / 10) % 10)],
        seq![digit_char(m % 10)],
    );
    if v < 0 {
        lemma_newline_free_concat(seq!['-'], hundredths_abs(m));
    }
}

/// Renders a fixed-point reading held in tenths of a unit.
pub fn tenths_to_string(v: i32) -> (s: String)
    ensures
        s@ == tenths_str(v as int),
{
    proof {
        reveal_strlit("-");
        reveal_strlit(".");
    }
    let w: i64 = v as i64;
    let m: u64 = if w < 0 {
        (-w) as u64
    } else {
        w as u64
    };
    let mut s = if w < 0 {
        "-".to_owned()
    } else {
        String::new()
    };
    let whole = u64_to_dec(m / 10);
    s.append(whole.as_str());
    s.append(".");
    s.append(digit_str(m % 10));
    proof {
        assert(s@ =~= tenths_str(v as int));
    }
    s
}

/// Renders a fixed-point reading held in hundredths of a unit.
pub fn hundredths_to_string(v: i64) -> (s: String)
    requires
        i64::MIN < v,
    ensures
        s@ == hundredths_str(v as int),
{
    proof {
        reveal_strlit("-");
        reveal_strlit(".");
    }
    let m: u64 = if v < 0 {
        (-v) as u64
    } else {
        v as u64
    };
    let mut s = if v < 0 {
        "-".to_owned()
    } else {
        String::new()
    };
    let whole = u64_to_dec(m / 100);
    s.append(whole.as_str());
    s.append(".");
    s.append(digit_str((m / 10) % 10));
    s.append(digit_str(m % 10));
    proof {
        assert(s@ =~= hundredths_str(v as int));
    }
    s
}

} // verus!
