use vstd::prelude::*;
use vstd::string::*;
use vstd::arithmetic::div_mod::{
    lemma_div_is_ordered, lemma_div_pos_is_pos, lemma_fundamental_div_mod,
    lemma_fundamental_div_mod_converse_div, lemma_fundamental_div_mod_converse_mod,
    lemma_mod_division_less_than_divisor,
};

verus! {

// Numbers travel in a fixed width of 20 decimal digits (every u64 fits),
// signed ones behind an explicit '+' or '-', and a text field as a
// 20-digit character count followed by the characters themselves. The
// fixed width keeps every value's encoding unique, so decoding is exact:
// a piece parses back to a value if and only if it is that value's
// encoding.
pub open spec fn spec_digit_char(d: int) -> char {
    if d == 0 {
        '0'
    } else if d == 1 {
        '1'
    } else if d == 2 {
        '2'
    } else if d == 3 {
        '3'
    } else if d == 4 {
        '4'
    } else if d == 5 {
        '5'
    } else if d == 6 {
        '6'
    } else if d == 7 {
        '7'
    } else if d == 8 {
        '8'
    } else {
        '9'
    }
}

pub open spec fn digit_val(c: char) -> int {
    if c == '0' {
        0
    } else if c == '1' {
        1
    } else if c == '2' {
        2
    } else if c == '3' {
        3
    } else if c == '4' {
        4
    } else if c == '5' {
        5
    } else if c == '6' {
        6
    } else if c == '7' {
        7
    } else if c == '8' {
        8
    } else if c == '9' {
        9
    } else {
        -1
    }
}

pub open spec fn pow10(w: nat) -> int
    decreases w,
{
    if w == 0 {
        1
    } else {
        10 * pow10((w - 1) as nat)
    }
}

/// The `w` decimal digits of `v`, most significant first, with leading
/// zeros.
pub open spec fn u_digits(v: int, w: nat) -> Seq<char>
    decreases w,
{
    if w == 0 {
        Seq::empty()
    } else {
        u_digits(v / 10, (w - 1) as nat).push(spec_digit_char(v % 10))
    }
}

/// The value of a most-significant-first digit string.
pub open spec fn val_of(s: Seq<char>) -> int
    decreases s.len(),
{
    if s.len() == 0 {
        0
    } else {
        val_of(s.drop_last()) * 10 + digit_val(s.last())
    }
}

pub open spec fn all_digits(s: Seq<char>) -> bool {
    forall|i: int| 0 <= i < s.len() ==> digit_val(s[i]) >= 0
}

/// The suffix of `s` from position `pos` on.
pub open spec fn rest_of(s: Seq<char>, pos: int) -> Seq<char> {
    s.subrange(pos, s.len() as int)
}

/// A signed number piece: sign character, then 20 digits of the
/// magnitude. Non-negative values always carry '+', so each integer has
/// exactly one encoding.
pub open spec fn i_piece(v: int) -> Seq<char> {
    if v < 0 {
        seq!['-'] + u_digits(-v, 20)
    } else {
        seq!['+'] + u_digits(v, 20)
    }
}

/// A text piece: the character count as 20 digits, then the characters.
pub open spec fn s_piece(t: Seq<char>) -> Seq<char> {
    u_digits(t.len() as int, 20) + t
}

pub proof fn lemma_pow10_pos(w: nat)
    ensures
        pow10(w) >= 1,
    decreases w,
{
    if w > 0 {
        lemma_pow10_pos((w - 1) as nat);
    }
}

pub proof fn lemma_pow10_20()
    ensures
        pow10(20) == 100000000000000000000,
{
    assert(pow10(0) == 1);
    assert(pow10(1) == 10);
    assert(pow10(2) == 100);
    assert(pow10(3) == 1000);
    assert(pow10(4) == 10000);
    assert(pow10(5) == 100000);
    assert(pow10(6) == 1000000);
    assert(pow10(7) == 10000000);
    assert(pow10(8) == 100000000);
    assert(pow10(9) == 1000000000);
    assert(pow10(10) == 10000000000);
    assert(pow10(11) == 100000000000);
    assert(pow10(12) == 1000000000000);
    assert(pow10(13) == 10000000000000);
    assert(pow10(14) == 100000000000000);
    assert(pow10(15) == 1000000000000000);
    assert(pow10(16) == 10000000000000000);
    assert(pow10(17) == 100000000000000000);
    assert(pow10(18) == 1000000000000000000);
    assert(pow10(19) == 10000000000000000000);
    assert(pow10(20) == 100000000000000000000);
}

pub proof fn lemma_u_digits_props(v: int, w: nat)
    requires
        v >= 0,
    ensures
        u_digits(v, w).len() == w,
        all_digits(u_digits(v, w)),
    decreases w,
{
    if w > 0 {
        lemma_div_pos_is_pos(v, 10);
        lemma_mod_division_less_than_divisor(v, 10);
        lemma_u_digits_props(v / 10, (w - 1) as nat);
        let s = u_digits(v, w);
        let prefix = u_digits(v / 10, (w - 1) as nat);
        assert forall|i: int| 0 <= i < s.len() implies digit_val(s[i]) >= 0 by {
            if i < w - 1 {
                assert(s[i] == prefix[i]);
            } else {
                assert(s[i] == spec_digit_char(v % 10));
            }
        }
    }
}

pub proof fn lemma_val_of_u_digits(v: int, w: nat)
    requires
        0 <= v < pow10(w),
    ensures
        val_of(u_digits(v, w)) == v,
    decreases w,
{
    if w == 0 {
    } else {
        let p1 = pow10((w - 1) as nat);
        lemma_pow10_pos((w - 1) as nat);
        lemma_div_pos_is_pos(v, 10);
        lemma_mod_division_less_than_divisor(v, 10);
        // v / 10 <= (10 * p1 - 1) / 10 == p1 - 1
        lemma_div_is_ordered(v, 10 * p1 - 1, 10);
        lemma_fundamental_div_mod_converse_div(10 * p1 - 1, 10, p1 - 1, 9);
        lemma_val_of_u_digits(v / 10, (w - 1) as nat);
        lemma_u_digits_props(v / 10, (w - 1) as nat);
        let s = u_digits(v, w);
        let prefix = u_digits(v / 10, (w - 1) as nat);
        assert(s.drop_last() =~= prefix);
        assert(s.last() == spec_digit_char(v % 10));
        assert(digit_val(spec_digit_char(v % 10)) == v % 10);
        lemma_fundamental_div_mod(v, 10);
    }
}

pub proof fn lemma_digits_of_val(s: Seq<char>)
    requires
        all_digits(s),
    ensures
        0 <= val_of(s) < pow10(s.len()),
        u_digits(val_of(s), s.len()) == s,
    decreases s.len(),
{
    if s.len() == 0 {
        assert(u_digits(0, 0) =~= s);
    } else {
        let prefix = s.drop_last();
        assert(all_digits(prefix)) by {
            assert forall|i: int| 0 <= i < prefix.len() implies digit_val(prefix[i]) >= 0 by {
                assert(prefix[i] == s[i]);
            }
        }
        lemma_digits_of_val(prefix);
        let q = val_of(prefix);
        let d = digit_val(s.last());
        assert(d >= 0);
        assert(d < 10);
        let v = val_of(s);
        assert(v == q * 10 + d);
        let p1 = pow10((s.len() - 1) as nat);
        lemma_pow10_pos((s.len() - 1) as nat);
        assert(v < p1 * 10) by (nonlinear_arith)
            requires
                v == q * 10 + d,
                q < p1,
                d < 10,
        ;
        assert(pow10(s.len()) == 10 * p1);
        lemma_fundamental_div_mod_converse_div(v, 10, q, d);
        lemma_fundamental_div_mod_converse_mod(v, 10, q, d);
        assert(u_digits(v, s.len()) == u_digits(q, (s.len() - 1) as nat).push(
            spec_digit_char(d),
        ));
        assert(spec_digit_char(d) == s.last());
        assert(u_digits(v, s.len()) =~= s);
    }
}

pub proof fn lemma_u_digits_inj(a: int, b: int, w: nat)
    requires
        0 <= a < pow10(w),
        0 <= b < pow10(w),
        u_digits(a, w) == u_digits(b, w),
    ensures
        a == b,
{
    lemma_val_of_u_digits(a, w);
    lemma_val_of_u_digits(b, w);
}

/// Splits a known concatenation at `pos` into its two parts.
pub proof fn lemma_concat_parts(s: Seq<char>, pos: int, a: Seq<char>, b: Seq<char>)
    requires
        0 <= pos <= s.len(),
        rest_of(s, pos) == a + b,
    ensures
        pos + a.len() + b.len() == s.len(),
        s.subrange(pos, pos + a.len() as int) =~= a,
        rest_of(s, pos + a.len() as int) =~= b,
{
    assert(rest_of(s, pos).len() == s.len() - pos);
    assert forall|i: int| 0 <= i < a.len() implies s.subrange(pos, pos + a.len() as int)[i]
        == a[i] by {
        assert(rest_of(s, pos)[i] == s[pos + i]);
        assert((a + b)[i] == a[i]);
    }
    assert forall|i: int| 0 <= i < b.len() implies rest_of(s, pos + a.len() as int)[i] == b[i] by {
        assert(rest_of(s, pos)[a.len() + i] == s[pos + a.len() + i]);
        assert((a + b)[a.len() + i] == b[i]);
    }
}

fn digit_str(d: u64) -> (r: &'static str)
    requires
        d < 10,
    ensures
        r@ == seq![spec_digit_char(d as int)],
{
    proof {
        reveal_strlit("0");
        reveal_strlit("1");
        reveal_strlit("2");
        reveal_strlit("3");
        reveal_strlit("4");
        reveal_strlit("5");
        reveal_strlit("6");
        reveal_strlit("7");
        reveal_strlit("8");
        reveal_strlit("9");
    }
    let r = match d {
        0 => "0",
        1 => "1",
        2 => "2",
        3 => "3",
        4 => "4",
        5 => "5",
        6 => "6",
        7 => "7",
        8 => "8",
        _ => "9",
    };
    proof {
        assert(r@ =~= seq![spec_digit_char(d as int)]);
    }
    r
}

fn char_digit(c: char) -> (r: Option<u64>)
    ensures
        digit_val(c) >= 0 ==> r == Some(digit_val(c) as u64),
        digit_val(c) < 0 ==> r is None,
{
    match c {
        '0' => Some(0),
        '1' => Some(1),
        '2' => Some(2),
        '3' => Some(3),
        '4' => Some(4),
        '5' => Some(5),
        '6' => Some(6),
        '7' => Some(7),
        '8' => Some(8),
        '9' => Some(9),
        _ => None,
    }
}

/// Appends the `w`-digit encoding of `v`.
pub fn push_u_digits(out: &mut String, v: u64, w: u64)
    ensures
        final(out)@ == old(out)@ + u_digits(v as int, w as nat),
    decreases w,
{
    if w == 0 {
        proof {
            assert(out@ =~= out@ + u_digits(v as int, 0));
        }
    } else {
        push_u_digits(out, v / 10, w - 1);
        let ds = digit_str(v % 10);
        out.append(ds);
        proof {
            assert((v % 10) as int == (v as int) % 10);
            assert((v / 10) as int == (v as int) / 10);
            assert(out@ =~= old(out)@ + u_digits(v as int, w as nat));
        }
    }
}

/// Appends the sign-and-magnitude encoding of `v`.
pub fn push_i64(out: &mut String, v: i64)
    ensures
        final(out)@ == old(out)@ + i_piece(v as int),
{
    if v < 0 {
        out.append("-");
        let mag: u64 = if v == i64::MIN {
            9223372036854775808u64
        } else {
            (-v) as u64
        };
        push_u_digits(out, mag, 20);
        proof {
            reveal_strlit("-");
            assert("-"@ =~= seq!['-']);
            assert(mag as int == -(v as int));
            assert(out@ =~= old(out)@ + i_piece(v as int));
        }
    } else {
        out.append("+");
        push_u_digits(out, v as u64, 20);
        proof {
            reveal_strlit("+");
            assert("+"@ =~= seq!['+']);
            assert(out@ =~= old(out)@ + i_piece(v as int));
        }
    }
}

/// Appends the length-prefixed encoding of `t`.
pub fn push_str_piece(out: &mut String, t: &str)
    ensures
        final(out)@ == old(out)@ + s_piece(t@),
{
    let l = t.unicode_len();
    push_u_digits(out, l as u64, 20);
    out.append(t);
    proof {
        assert(out@ =~= old(out)@ + s_piece(t@));
    }
}

/// Reads a 20-digit number at `pos`. Returns `Some(v)` exactly when the
/// input continues with the canonical 20-digit encoding of `v`.
pub fn dec_u64_at(s: &str, pos: usize) -> (r: Option<u64>)
    requires
        pos as int <= s@.len(),
    ensures
        forall|v: u64, rest: Seq<char>|
            rest_of(s@, pos as int) == #[trigger] (u_digits(v as int, 20) + rest) ==> r == Some(v),
        r matches Some(v) ==> pos as int + 20 <= s@.len() && rest_of(s@, pos as int) == u_digits(
            v as int,
            20,
        ) + rest_of(s@, pos as int + 20),
{
    let n = s.unicode_len();
    if n - pos < 20 {
        proof {
            assert forall|v: u64, rest: Seq<char>|
                rest_of(s@, pos as int) != (u_digits(v as int, 20) + rest) by {
                lemma_u_digits_props(v as int, 20);
                assert((u_digits(v as int, 20) + rest).len() >= 20);
                assert(rest_of(s@, pos as int).len() < 20);
            }
        }
        return None;
    }
    let mut acc: u64 = 0;
    let mut i: usize = 0;
    let max_q: u64 = u64::MAX / 10;
    let max_r: u64 = u64::MAX % 10;
    while i < 20
        invariant
            pos + 20 <= s@.len(),
            s@.len() <= usize::MAX,
            0 <= i <= 20,
            max_q == u64::MAX / 10,
            max_r == u64::MAX % 10,
            all_digits(s@.subrange(pos as int, pos as int + i as int)),
            acc as int == val_of(s@.subrange(pos as int, pos as int + i as int)),
        decreases 20 - i,
    {
        let c = s.get_char(pos + i);
        let d = match char_digit(c) {
            Some(d) => d,
            None => {
                proof {
                    assert forall|v: u64, rest: Seq<char>|
                        rest_of(s@, pos as int) != (u_digits(v as int, 20) + rest) by {
                        if rest_of(s@, pos as int) == u_digits(v as int, 20) + rest {
                            lemma_u_digits_props(v as int, 20);
                            assert(rest_of(s@, pos as int)[i as int] == s@[pos as int + i]);
                            assert((u_digits(v as int, 20) + rest)[i as int] == u_digits(
                                v as int,
                                20,
                            )[i as int]);
                            assert(digit_val(c) >= 0);
                        }
                    }
                }
                return None;
            },
        };
        if acc > max_q || (acc == max_q && d > max_r) {
            proof {
                assert(u64::MAX == 10 * (u64::MAX as int / 10) + (u64::MAX as int % 10));
                assert(acc * 10 + d > u64::MAX);
                let cur = s@.subrange(pos as int, pos as int + i as int + 1);
                assert(cur.drop_last() =~= s@.subrange(pos as int, pos as int + i as int));
                assert(cur.last() == c);
                assert(val_of(cur) == acc * 10 + d);
                assert forall|v: u64, rest: Seq<char>|
                    rest_of(s@, pos as int) != (u_digits(v as int, 20) + rest) by {
                    if rest_of(s@, pos as int) == u_digits(v as int, 20) + rest {
                        lemma_u_digits_props(v as int, 20);
                        lemma_concat_parts(s@, pos as int, u_digits(v as int, 20), rest);
                        let full = s@.subrange(pos as int, pos as int + 20);
                        assert(full == u_digits(v as int, 20));
                        lemma_pow10_20();
                        lemma_val_of_u_digits(v as int, 20);
                        // the first i+1 digits of v's encoding are worth at
                        // most v itself
                        let head = full.subrange(0, i as int + 1);
                        assert(all_digits(head)) by {
                            assert forall|j: int| 0 <= j < head.len() implies digit_val(head[j])
                                >= 0 by {
                                assert(head[j] == full[j]);
                            }
                        }
                        lemma_digits_of_val(head);
                        let tail = full.subrange(i as int + 1, 20);
                        assert(all_digits(tail)) by {
                            assert forall|j: int| 0 <= j < tail.len() implies digit_val(tail[j])
                                >= 0 by {
                                assert(tail[j] == full[j + i + 1]);
                            }
                        }
                        lemma_val_split(full, i as int + 1);
                        assert(head =~= cur);
                        // val_of(full) == val_of(head) * pow10(19 - i) + val_of(tail)
                        let p = pow10((20 - (i as int + 1)) as nat);
                        lemma_pow10_pos((20 - (i as int + 1)) as nat);
                        lemma_digits_of_val(tail);
                        assert(val_of(head) * p <= val_of(full)) by (nonlinear_arith)
                            requires
                                val_of(full) == val_of(head) * p + val_of(tail),
                                val_of(tail) >= 0,
                        ;
                        assert(val_of(head) <= val_of(full)) by (nonlinear_arith)
                            requires
                                val_of(head) * p <= val_of(full),
                                p >= 1,
                                val_of(head) >= 0,
                        ;
                        assert(val_of(full) == v as int);
                        assert(val_of(head) > u64::MAX);
                    }
                }
            }
            return None;
        }
        proof {
            assert(acc * 10 + d <= u64::MAX);
        }
        let ghost prev = s@.subrange(pos as int, pos as int + i as int);
        acc = acc * 10 + d;
        i = i + 1;
        proof {
            let cur = s@.subrange(pos as int, pos as int + i as int);
            assert(cur.drop_last() =~= prev);
            assert(cur.last() == c);
            assert(all_digits(cur)) by {
                assert forall|j: int| 0 <= j < cur.len() implies digit_val(cur[j]) >= 0 by {
                    if j < i - 1 {
                        assert(cur[j] == prev[j]);
                    } else {
                        assert(cur[j] == c);
                    }
                }
            }
        }
    }
    proof {
        let full = s@.subrange(pos as int, pos as int + 20);
        lemma_digits_of_val(full);
        assert(u_digits(acc as int, 20) == full);
        assert(rest_of(s@, pos as int) =~= u_digits(acc as int, 20) + rest_of(
            s@,
            pos as int + 20,
        ));
        assert forall|v: u64, rest: Seq<char>|
            rest_of(s@, pos as int) == (u_digits(v as int, 20) + rest) implies Some(acc) == Some(
            v,
        ) by {
            lemma_u_digits_props(v as int, 20);
            lemma_concat_parts(s@, pos as int, u_digits(v as int, 20), rest);
            assert(u_digits(v as int, 20) == full);
            lemma_pow10_20();
            lemma_u_digits_inj(v as int, acc as int, 20);
        }
    }
    Some(acc)
}

/// Reads a sign-and-magnitude number at `pos`. Returns `Some(v)` exactly
/// when the input continues with the canonical encoding of `v`.
pub fn dec_i64_at(s: &str, pos: usize) -> (r: Option<i64>)
    requires
        pos as int <= s@.len(),
    ensures
        forall|v: i64, rest: Seq<char>|
            rest_of(s@, pos as int) == #[trigger] (i_piece(v as int) + rest) ==> r == Some(v),
        r matches Some(v) ==> pos as int + 21 <= s@.len() && rest_of(s@, pos as int) == i_piece(
            v as int,
        ) + rest_of(s@, pos as int + 21),
{
    let n = s.unicode_len();
    if n == pos {
        proof {
            assert forall|v: i64, rest: Seq<char>|
                rest_of(s@, pos as int) != (i_piece(v as int) + rest) by {
                lemma_u_digits_props(abs_int(v as int), 20);
                assert((i_piece(v as int) + rest).len() >= 21);
                assert(rest_of(s@, pos as int).len() == 0);
            }
        }
        return None;
    }
    let c0 = s.get_char(pos);
    if !(c0 == '+' || c0 == '-') {
        proof {
            assert forall|v: i64, rest: Seq<char>|
                rest_of(s@, pos as int) != (i_piece(v as int) + rest) by {
                if rest_of(s@, pos as int) == i_piece(v as int) + rest {
                    assert(rest_of(s@, pos as int)[0] == s@[pos as int]);
                    assert(i_piece(v as int)[0] == '+' || i_piece(v as int)[0] == '-');
                }
            }
        }
        return None;
    }
    let mag = match dec_u64_at(s, pos + 1) {
        Some(mag) => mag,
        None => {
            proof {
                assert forall|v: i64, rest: Seq<char>|
                    rest_of(s@, pos as int) != (i_piece(v as int) + rest) by {
                    if rest_of(s@, pos as int) == i_piece(v as int) + rest {
                        lemma_shift_sign(s@, pos as int, v as int, rest);
                    }
                }
            }
            return None;
        },
    };
    if c0 == '+' {
        if mag <= 9223372036854775807u64 {
            proof {
                lemma_join_sign(s@, pos as int, mag as int, '+');
                assert(rest_of(s@, pos as int) == i_piece(mag as int) + rest_of(
                    s@,
                    pos as int + 21,
                ));
                assert forall|v: i64, rest: Seq<char>|
                    rest_of(s@, pos as int) == (i_piece(v as int) + rest) implies Some(
                    mag as i64,
                ) == Some(v) by {
                    lemma_match_sign(s@, pos as int, v as int, rest, mag);
                }
            }
            Some(mag as i64)
        } else {
            proof {
                assert forall|v: i64, rest: Seq<char>|
                    rest_of(s@, pos as int) != (i_piece(v as int) + rest) by {
                    if rest_of(s@, pos as int) == i_piece(v as int) + rest {
                        lemma_match_sign(s@, pos as int, v as int, rest, mag);
                    }
                }
            }
            None
        }
    } else {
        if 1 <= mag && mag <= 9223372036854775808u64 {
            let v: i64 = if mag == 9223372036854775808u64 {
                i64::MIN
            } else {
                -(mag as i64)
            };
            proof {
                assert(mag as int == -(v as int));
                lemma_join_sign(s@, pos as int, mag as int, '-');
                assert(rest_of(s@, pos as int) == i_piece(v as int) + rest_of(
                    s@,
                    pos as int + 21,
                ));
                assert forall|w: i64, rest: Seq<char>|
                    rest_of(s@, pos as int) == (i_piece(w as int) + rest) implies Some(v) == Some(
                    w,
                ) by {
                    lemma_match_sign(s@, pos as int, w as int, rest, mag);
                }
            }
            Some(v)
        } else {
            proof {
                assert forall|v: i64, rest: Seq<char>|
                    rest_of(s@, pos as int) != (i_piece(v as int) + rest) by {
                    if rest_of(s@, pos as int) == i_piece(v as int) + rest {
                        lemma_match_sign(s@, pos as int, v as int, rest, mag);
                    }
                }
            }
            None
        }
    }
}

/// Reassembles a sign character and its 20 digits into one signed piece.
proof fn lemma_join_sign(s: Seq<char>, pos: int, mag: int, sign: char)
    requires
        0 <= pos,
        pos + 21 <= s.len(),
        s[pos] == sign,
        mag >= 0,
        rest_of(s, pos + 1) == u_digits(mag, 20) + rest_of(s, pos + 21),
    ensures
        rest_of(s, pos) == (seq![sign] + u_digits(mag, 20)) + rest_of(s, pos + 21),
{
    lemma_u_digits_props(mag, 20);
    let piece = seq![sign] + u_digits(mag, 20);
    let whole = piece + rest_of(s, pos + 21);
    assert forall|i: int| 0 <= i < s.len() - pos implies rest_of(s, pos)[i] == whole[i] by {
        assert(rest_of(s, pos)[i] == s[pos + i]);
        if i == 0 {
            assert(whole[0] == sign);
        } else if i < 21 {
            assert(rest_of(s, pos + 1)[i - 1] == s[pos + i]);
            assert((u_digits(mag, 20) + rest_of(s, pos + 21))[i - 1] == u_digits(mag, 20)[i - 1]);
            assert(whole[i] == piece[i]);
            assert(piece[i] == u_digits(mag, 20)[i - 1]);
        } else {
            assert(rest_of(s, pos + 1)[i - 1] == s[pos + i]);
            assert((u_digits(mag, 20) + rest_of(s, pos + 21))[i - 1] == rest_of(s, pos + 21)[i
                - 21]);
            assert(whole[i] == rest_of(s, pos + 21)[i - 21]);
        }
    }
    assert(rest_of(s, pos) =~= whole);
}

spec fn abs_int(v: int) -> int {
    if v < 0 {
        -v
    } else {
        v
    }
}

/// If the suffix at `pos` is a signed piece for `v`, the suffix one
/// further on starts with the 20 magnitude digits.
proof fn lemma_shift_sign(s: Seq<char>, pos: int, v: int, rest: Seq<char>)
    requires
        -0x8000000000000000 <= v < 0x8000000000000000,
        0 <= pos <= s.len(),
        rest_of(s, pos) == i_piece(v) + rest,
    ensures
        s[pos] == (if v < 0 { '-' } else { '+' }),
        rest_of(s, pos + 1) == u_digits(abs_int(v), 20) + rest,
        pos + 21 + rest.len() == s.len(),
{
    let sign = if v < 0 { seq!['-'] } else { seq!['+'] };
    lemma_u_digits_props(abs_int(v), 20);
    assert(i_piece(v) + rest =~= sign + (u_digits(abs_int(v), 20) + rest));
    lemma_concat_parts(s, pos, sign, u_digits(abs_int(v), 20) + rest);
    assert(rest_of(s, pos)[0] == s[pos]);
    lemma_concat_parts(s, pos + 1, u_digits(abs_int(v), 20), rest);
}

/// If the suffix at `pos` is a signed piece for `v` and the 20 digits
/// after the sign read back as `mag`, then `mag` is `v`'s magnitude.
proof fn lemma_match_sign(s: Seq<char>, pos: int, v: int, rest: Seq<char>, mag: u64)
    requires
        -0x8000000000000000 <= v < 0x8000000000000000,
        0 <= pos <= s.len(),
        rest_of(s, pos) == i_piece(v) + rest,
        pos + 21 <= s.len(),
        rest_of(s, pos + 1) == u_digits(mag as int, 20) + rest_of(s, pos + 21),
    ensures
        mag as int == abs_int(v),
        s[pos] == (if v < 0 { '-' } else { '+' }),
{
    lemma_shift_sign(s, pos, v, rest);
    lemma_concat_parts(s, pos + 1, u_digits(abs_int(v), 20), rest);
    lemma_concat_parts(s, pos + 1, u_digits(mag as int, 20), rest_of(s, pos + 21));
    lemma_u_digits_props(abs_int(v), 20);
    lemma_u_digits_props(mag as int, 20);
    assert(u_digits(abs_int(v), 20) =~= u_digits(mag as int, 20)) by {
        assert forall|i: int| 0 <= i < 20 implies u_digits(abs_int(v), 20)[i] == u_digits(
            mag as int,
            20,
        )[i] by {
            assert(u_digits(abs_int(v), 20)[i] == s.subrange(pos + 1, pos + 21)[i]);
            assert(u_digits(mag as int, 20)[i] == s.subrange(pos + 1, pos + 21)[i]);
        }
    }
    lemma_pow10_20();
    lemma_u_digits_inj(abs_int(v), mag as int, 20);
}

/// Reads a length-prefixed text piece at `pos`. Returns the text and the
/// next position exactly when the input continues with such a piece.
pub fn dec_str_at(s: &str, pos: usize) -> (r: Option<(String, usize)>)
    requires
        pos as int <= s@.len(),
    ensures
        forall|t: Seq<char>, rest: Seq<char>|
            rest_of(s@, pos as int) == #[trigger] (s_piece(t) + rest) ==> (match r {
                Some(p) => p.0@ == t && p.1 == pos + 20 + t.len(),
                None => false,
            }),
        r matches Some(p) ==> pos as int + 20 + p.0@.len() == p.1 as int && p.1 as int <= s@.len()
            && rest_of(s@, pos as int) == s_piece(p.0@) + rest_of(s@, p.1 as int),
{
    let n = s.unicode_len();
    let len_v = match dec_u64_at(s, pos) {
        Some(l) => l,
        None => {
            proof {
                assert forall|t: Seq<char>, rest: Seq<char>|
                    rest_of(s@, pos as int) != (s_piece(t) + rest) by {
                    if rest_of(s@, pos as int) == s_piece(t) + rest {
                        assert(s_piece(t) + rest =~= u_digits(t.len() as int, 20) + (t + rest));
                        assert(t.len() as u64 as int == t.len() as int) by {
                            lemma_concat_parts(
                                s@,
                                pos as int,
                                u_digits(t.len() as int, 20),
                                t + rest,
                            );
                        }
                    }
                }
            }
            return None;
        },
    };
    proof {
        lemma_u_digits_props(len_v as int, 20);
    }
    let rem = n - (pos + 20);
    if len_v > rem as u64 {
        proof {
            assert forall|t: Seq<char>, rest: Seq<char>|
                rest_of(s@, pos as int) != (s_piece(t) + rest) by {
                if rest_of(s@, pos as int) == s_piece(t) + rest {
                    lemma_str_piece_len(s@, pos as int, t, rest, len_v);
                }
            }
        }
        return None;
    }
    let l = len_v as usize;
    let sub = s.substring_char(pos + 20, pos + 20 + l);
    let text = sub.to_owned();
    proof {
        assert(rest_of(s@, pos as int) =~= s_piece(text@) + rest_of(s@, pos as int + 20 + l));
        assert forall|t: Seq<char>, rest: Seq<char>|
            rest_of(s@, pos as int) == (s_piece(t) + rest) implies (text@ == t && pos + 20 + l
            == pos + 20 + t.len()) by {
            lemma_str_piece_len(s@, pos as int, t, rest, len_v);
            assert(t =~= s@.subrange(pos as int + 20, pos as int + 20 + l));
        }
    }
    Some((text, pos + 20 + l))
}

/// If the suffix at `pos` is a text piece for `t` and the 20 digits at
/// `pos` read back as `len_v`, then `len_v` is `t`'s length and `t` is
/// the text right after the digits.
proof fn lemma_str_piece_len(s: Seq<char>, pos: int, t: Seq<char>, rest: Seq<char>, len_v: u64)
    requires
        0 <= pos,
        pos + 20 <= s.len(),
        s.len() <= 18446744073709551615,
        rest_of(s, pos) == s_piece(t) + rest,
        rest_of(s, pos) == u_digits(len_v as int, 20) + rest_of(s, pos + 20),
    ensures
        len_v as int == t.len() as int,
        t == s.subrange(pos + 20, pos + 20 + t.len() as int),
        pos + 20 + t.len() + rest.len() == s.len(),
{
    lemma_u_digits_props(t.len() as int, 20);
    lemma_u_digits_props(len_v as int, 20);
    assert(s_piece(t) + rest =~= u_digits(t.len() as int, 20) + (t + rest));
    lemma_concat_parts(s, pos, u_digits(t.len() as int, 20), t + rest);
    lemma_concat_parts(s, pos, u_digits(len_v as int, 20), rest_of(s, pos + 20));
    assert(u_digits(t.len() as int, 20) =~= u_digits(len_v as int, 20)) by {
        assert forall|i: int| 0 <= i < 20 implies u_digits(t.len() as int, 20)[i] == u_digits(
            len_v as int,
            20,
        )[i] by {
            assert(u_digits(t.len() as int, 20)[i] == s.subrange(pos, pos + 20)[i]);
            assert(u_digits(len_v as int, 20)[i] == s.subrange(pos, pos + 20)[i]);
        }
    }
    lemma_pow10_20();
    assert(t.len() as int <= s.len());
    lemma_u_digits_inj(t.len() as int, len_v as int, 20);
    lemma_concat_parts(s, pos + 20, t, rest);
}

/// The value of a digit string splits at any cut: the head digits carry
/// their value scaled by ten to the number of tail digits.
pub proof fn lemma_val_split(s: Seq<char>, cut: int)
    requires
        0 <= cut <= s.len(),
    ensures
        val_of(s) == val_of(s.subrange(0, cut)) * pow10((s.len() - cut) as nat) + val_of(
            s.subrange(cut, s.len() as int),
        ),
    decreases s.len() - cut,
{
    let head = s.subrange(0, cut);
    let tail = s.subrange(cut, s.len() as int);
    if cut == s.len() {
        assert(head =~= s);
        assert(tail =~= Seq::<char>::empty());
        assert(val_of(s) == val_of(head) * 1 + 0) by (nonlinear_arith)
            requires
                val_of(head) == val_of(s),
        ;
    } else {
        lemma_val_split(s.drop_last(), cut);
        let p = pow10((s.len() - 1 - cut) as nat);
        assert(s.drop_last().subrange(0, cut) =~= head);
        assert(s.drop_last().subrange(cut, s.len() - 1) =~= tail.drop_last());
        assert(val_of(s.drop_last()) == val_of(head) * p + val_of(tail.drop_last()));
        assert(s.last() == tail.last());
        assert(val_of(tail) == val_of(tail.drop_last()) * 10 + digit_val(tail.last()));
        assert(val_of(s) == val_of(s.drop_last()) * 10 + digit_val(s.last()));
        assert(pow10((s.len() - cut) as nat) == 10 * p);
        assert((val_of(head) * p + val_of(tail.drop_last())) * 10 == val_of(head) * (10 * p)
            + val_of(tail.drop_last()) * 10) by (nonlinear_arith);
    }
}

} // verus!
