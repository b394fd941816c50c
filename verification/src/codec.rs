use vstd::prelude::*;
use crate::config::VAL_BOUND;
use crate::q_table::{Moves, QTable, entries_bounded, entries_distinct, table_keys_distinct};
use crate::util::chars_to_string;

verus! {

// ---------------------------------------------------------------------------
// The durable record of a Value Store.
//
// The record is a piece of structured text: an object holding one "qtable"
// member, which maps each state key to an object mapping "(row, column)"
// pairs to fixed-point values written as decimals with six fractional
// digits. Rendering and parsing are verified here, and parsing a rendered
// store is proved to reproduce its entries exactly.
// ---------------------------------------------------------------------------

/// The record's view of a store: each key's characters with its table's
/// entries, in order.
pub open spec fn table_abs(s: Seq<(String, Moves)>) -> Seq<
    (Seq<char>, Seq<((usize, usize), i64)>),
> {
    Seq::new(s.len(), |i: int| (s[i].0@, s[i].1.moves@))
}

pub open spec fn digit_char(d: int) -> char {
    if d == 0 {
        '0'
    } else if d == 1 {
        '1'
    } else if d == 2 {
        '2'
    } else if d == 3 {
        '3'
    } else if d == 4 {
        '4'
    } else if d == 5 {
        '5'
    } else if d == 6 {
        '6'
    } else if d == 7 {
        '7'
    } else if d == 8 {
        '8'
    } else {
        '9'
    }
}

pub open spec fn is_digit_char(c: char) -> bool {
    c == '0' || c == '1' || c == '2' || c == '3' || c == '4' || c == '5' || c == '6' || c == '7'
        || c == '8' || c == '9'
}

pub open spec fn digit_val(c: char) -> int {
    if c == '0' {
        0
    } else if c == '1' {
        1
    } else if c == '2' {
        2
    } else if c == '3' {
        3
    } else if c == '4' {
        4
    } else if c == '5' {
        5
    } else if c == '6' {
        6
    } else if c == '7' {
        7
    } else if c == '8' {
        8
    } else {
        9
    }
}

// ---------------------------------------------------------------------------
// Rendering.
// ---------------------------------------------------------------------------

/// A non-negative number in decimal, most significant digit first.
pub open spec fn render_nat(n: int) -> Seq<char>
    decreases n,
{
    if n <= 9 {
        seq![digit_char(if n < 0 { 0int } else { n })]
    } else {
        render_nat(n / 10).push(digit_char(n % 10))
    }
}

/// A non-negative number in exactly `w` decimal digits, zero-padded.
pub open spec fn render_fixed(n: int, w: int) -> Seq<char>
    decreases w,
{
    if w <= 0 {
        Seq::empty()
    } else {
        render_fixed(n / 10, w - 1).push(digit_char(n % 10))
    }
}

/// A fixed-point value as a decimal: sign, whole units, a point, and the six
/// digits of the millionths.
pub open spec fn render_value(v: int) -> Seq<char> {
    let a = if v < 0 {
        -v
    } else {
        v
    };
    (if v < 0 {
        seq!['-']
    } else {
        Seq::<char>::empty()
    }) + render_nat(a / 1000000) + seq!['.'] + render_fixed(a % 1000000, 6)
}

/// A move's record key: the coordinate pair written out.
pub open spec fn render_move_key(mv: (usize, usize)) -> Seq<char> {
    seq!['('] + render_nat(mv.0 as int) + seq![',', ' '] + render_nat(mv.1 as int) + seq![')']
}

pub open spec fn render_moves_entry(e: ((usize, usize), i64)) -> Seq<char> {
    seq!['"'] + render_move_key(e.0) + seq!['"', ':'] + render_value(e.1 as int)
}

pub open spec fn render_moves_entries(s: Seq<((usize, usize), i64)>) -> Seq<char>
    decreases s.len(),
{
    if s.len() == 0 {
        Seq::empty()
    } else if s.len() == 1 {
        render_moves_entry(s[0])
    } else {
        render_moves_entry(s[0]) + seq![','] + render_moves_entries(s.drop_first())
    }
}

pub open spec fn render_moves(s: Seq<((usize, usize), i64)>) -> Seq<char> {
    seq!['{'] + render_moves_entries(s) + seq!['}']
}

pub open spec fn render_table_entry(e: (Seq<char>, Seq<((usize, usize), i64)>)) -> Seq<char> {
    seq!['"'] + e.0 + seq!['"', ':'] + render_moves(e.1)
}

pub open spec fn render_table_entries(s: Seq<(Seq<char>, Seq<((usize, usize), i64)>)>) -> Seq<
    char,
>
    decreases s.len(),
{
    if s.len() == 0 {
        Seq::empty()
    } else if s.len() == 1 {
        render_table_entry(s[0])
    } else {
        render_table_entry(s[0]) + seq![','] + render_table_entries(s.drop_first())
    }
}

/// The header naming the record's one member.
pub open spec fn record_header() -> Seq<char> {
    seq!['{', '"', 'q', 't', 'a', 'b', 'l', 'e', '"', ':', '{']
}

/// The whole record.
pub open spec fn spec_render_qtable(s: Seq<(Seq<char>, Seq<((usize, usize), i64)>)>) -> Seq<
    char,
> {
    record_header() + render_table_entries(s) + seq!['}', '}']
}

// ---------------------------------------------------------------------------
// What can be rendered and read back: board cells as move keys, bounded
// values, and keys free of the quote character that delimits them.
// ---------------------------------------------------------------------------

pub open spec fn key_renderable(k: Seq<char>) -> bool {
    forall|i: int| 0 <= i < k.len() ==> k[i] != '"'
}

pub open spec fn moves_serializable(s: Seq<((usize, usize), i64)>) -> bool {
    forall|i: int|
        0 <= i < s.len() ==> (#[trigger] s[i]).0.0 < 3 && s[i].0.1 < 3 && -VAL_BOUND <= s[i].1
            <= VAL_BOUND
}

pub open spec fn table_serializable(s: Seq<(Seq<char>, Seq<((usize, usize), i64)>)>) -> bool {
    forall|i: int|
        0 <= i < s.len() ==> key_renderable((#[trigger] s[i]).0) && moves_serializable(s[i].1)
}

// ---------------------------------------------------------------------------
// Parsing.
// ---------------------------------------------------------------------------

/// The end of the run of digits starting at `i`.
pub open spec fn digit_run_end(s: Seq<char>, i: int) -> int
    decreases s.len() - i,
    when 0 <= i <= s.len()
{
    if i < s.len() && is_digit_char(s[i]) {
        digit_run_end(s, i + 1)
    } else {
        i
    }
}

/// The value of a digit sequence, most significant digit first.
pub open spec fn digits_val(ds: Seq<char>) -> int
    decreases ds.len(),
{
    if ds.len() == 0 {
        0
    } else {
        digits_val(ds.drop_last()) * 10 + digit_val(ds.last())
    }
}

/// A number: a run of one to nine digits.
pub open spec fn spec_parse_nat(s: Seq<char>, i: int) -> Option<(int, int)> {
    if 0 <= i <= s.len() {
        let j = digit_run_end(s, i);
        if j == i || j - i > 9 {
            None
        } else {
            Some((digits_val(s.subrange(i, j)), j))
        }
    } else {
        None
    }
}

/// A fixed-point value: an optional sign, whole units, a point, and exactly
/// six fractional digits, rejected if it exceeds the value bound.
pub open spec fn spec_parse_value(s: Seq<char>, i: int) -> Option<(i64, int)> {
    if 0 <= i <= s.len() {
        let neg = i < s.len() && s[i] == '-';
        let i1: int = if neg {
            i + 1
        } else {
            i
        };
        match spec_parse_nat(s, i1) {
            None => None,
            Some((ip, i2)) => {
                if i2 + 6 < s.len() + 0 && s[i2] == '.' && (forall|k: int|
                    i2 + 1 <= k < i2 + 7 ==> is_digit_char(#[trigger] s[k])) {
                    let frac = digits_val(s.subrange(i2 + 1, i2 + 7));
                    let v0 = ip * 1000000 + frac;
                    let v: int = if neg {
                        -v0
                    } else {
                        v0
                    };
                    if -VAL_BOUND <= v <= VAL_BOUND {
                        Some((v as i64, i2 + 7))
                    } else {
                        None
                    }
                } else {
                    None
                }
            },
        }
    } else {
        None
    }
}

/// A move key: a parenthesized coordinate pair naming a board cell.
pub open spec fn spec_parse_move_key(s: Seq<char>, i: int) -> Option<((usize, usize), int)> {
    if 0 <= i < s.len() && s[i] == '(' {
        match spec_parse_nat(s, i + 1) {
            None => None,
            Some((r, j)) => {
                if j + 1 < s.len() && s[j] == ',' && s[j + 1] == ' ' {
                    match spec_parse_nat(s, j + 2) {
                        None => None,
                        Some((c, k)) => {
                            if k < s.len() && s[k] == ')' && 0 <= r < 3 && 0 <= c < 3 {
                                Some(((r as usize, c as usize), k + 1))
                            } else {
                                None
                            }
                        },
                    }
                } else {
                    None
                }
            },
        }
    } else {
        None
    }
}

/// One member of a move table: a quoted move key, a colon, a value.
pub open spec fn spec_parse_moves_entry(s: Seq<char>, i: int) -> Option<
    (((usize, usize), i64), int),
> {
    if 0 <= i < s.len() && s[i] == '"' {
        match spec_parse_move_key(s, i + 1) {
            None => None,
            Some((mv, j)) => {
                if j + 1 < s.len() && s[j] == '"' && s[j + 1] == ':' {
                    match spec_parse_value(s, j + 2) {
                        None => None,
                        Some((v, k)) => Some(((mv, v), k)),
                    }
                } else {
                    None
                }
            },
        }
    } else {
        None
    }
}

/// The members of a nonempty move table, ending at the closing brace. A
/// parsed member always advances the cursor; the explicit check keeps the
/// recursion well founded.
pub open spec fn spec_parse_moves_entries(s: Seq<char>, i: int) -> Option<
    (Seq<((usize, usize), i64)>, int),
>
    decreases s.len() - i,
    when 0 <= i
{
    match spec_parse_moves_entry(s, i) {
        None => None,
        Some((e, j)) => {
            if j < s.len() && s[j] == '}' {
                Some((seq![e], j + 1))
            } else if j < s.len() && s[j] == ',' && j >= i {
                match spec_parse_moves_entries(s, j + 1) {
                    None => None,
                    Some((rest, k)) => Some((seq![e] + rest, k)),
                }
            } else {
                None
            }
        },
    }
}

/// A move table: braces around its members.
pub open spec fn spec_parse_moves(s: Seq<char>, i: int) -> Option<
    (Seq<((usize, usize), i64)>, int),
> {
    if 0 <= i < s.len() && s[i] == '{' {
        if i + 1 < s.len() && s[i + 1] == '}' {
            Some((Seq::empty(), i + 2))
        } else {
            spec_parse_moves_entries(s, i + 1)
        }
    } else {
        None
    }
}

/// The position of the next quote character at or after `i`.
pub open spec fn quote_end(s: Seq<char>, i: int) -> int
    decreases s.len() - i,
    when 0 <= i <= s.len()
{
    if i < s.len() && s[i] != '"' {
        quote_end(s, i + 1)
    } else {
        i
    }
}

/// One member of the store: a quoted state key, a colon, a move table.
pub open spec fn spec_parse_table_entry(s: Seq<char>, i: int) -> Option<
    ((Seq<char>, Seq<((usize, usize), i64)>), int),
> {
    if 0 <= i < s.len() && s[i] == '"' {
        let q = quote_end(s, i + 1);
        if q + 1 < s.len() && s[q] == '"' && s[q + 1] == ':' {
            match spec_parse_moves(s, q + 2) {
                None => None,
                Some((m, j)) => Some(((s.subrange(i + 1, q), m), j)),
            }
        } else {
            None
        }
    } else {
        None
    }
}

/// The members of a nonempty store, ending at the closing brace.
pub open spec fn spec_parse_table_entries(s: Seq<char>, i: int) -> Option<
    (Seq<(Seq<char>, Seq<((usize, usize), i64)>)>, int),
>
    decreases s.len() - i,
    when 0 <= i
{
    match spec_parse_table_entry(s, i) {
        None => None,
        Some((e, j)) => {
            if j < s.len() && s[j] == '}' {
                Some((seq![e], j + 1))
            } else if j < s.len() && s[j] == ',' && j >= i {
                match spec_parse_table_entries(s, j + 1) {
                    None => None,
                    Some((rest, k)) => Some((seq![e] + rest, k)),
                }
            } else {
                None
            }
        },
    }
}

/// The whole record: the header, the store's members, and the two closing
/// braces, with nothing after them.
pub open spec fn spec_parse_qtable(s: Seq<char>) -> Option<
    Seq<(Seq<char>, Seq<((usize, usize), i64)>)>,
> {
    if s.len() >= 13 && s.subrange(0, 11) == record_header() {
        if s[11] == '}' {
            if s.len() == 13 && s[12] == '}' {
                Some(Seq::empty())
            } else {
                None
            }
        } else {
            match spec_parse_table_entries(s, 11) {
                None => None,
                Some((entries, j)) => {
                    if j + 1 == s.len() && s[j] == '}' {
                        Some(entries)
                    } else {
                        None
                    }
                },
            }
        }
    } else {
        None
    }
}

// ---------------------------------------------------------------------------
// Round trip: parsing a rendered record reproduces the entries exactly.
// ---------------------------------------------------------------------------

pub open spec fn pow10(w: int) -> int
    decreases w,
{
    if w <= 0 {
        1
    } else {
        10 * pow10(w - 1)
    }
}

proof fn lemma_div10_below(n: int, p: int)
    requires
        0 <= n < 10 * p,
        1 <= p,
    ensures
        n / 10 < p,
{
    vstd::arithmetic::div_mod::lemma_div_is_ordered(n, 10 * p - 1, 10);
    assert((10 * p - 1) / 10 == p - 1) by {
        vstd::arithmetic::div_mod::lemma_fundamental_div_mod_converse(10 * p - 1, 10, p - 1, 9);
    }
    vstd::arithmetic::div_mod::lemma_div_pos_is_pos(n, 10);
}

proof fn lemma_render_nat_digits(n: int)
    requires
        0 <= n,
    ensures
        1 <= render_nat(n).len(),
        forall|k: int| 0 <= k < render_nat(n).len() ==> is_digit_char(#[trigger] render_nat(n)[k]),
        digits_val(render_nat(n)) == n,
    decreases n,
{
    vstd::arithmetic::div_mod::lemma_div_pos_is_pos(n, 10);
    if n <= 9 {
        let r = render_nat(n);
        assert(r == seq![digit_char(n)]);
        assert(r.drop_last() =~= Seq::<char>::empty());
        assert(digits_val(r.drop_last()) == 0);
        assert(digit_val(digit_char(n)) == n);
    } else {
        lemma_render_nat_digits(n / 10);
        let pre = render_nat(n / 10);
        let r = render_nat(n);
        assert(r == pre.push(digit_char(n % 10)));
        assert(r.drop_last() =~= pre);
        assert(0 <= n % 10 < 10) by {
            vstd::arithmetic::div_mod::lemma_mod_bound(n, 10);
        }
        assert(n / 10 * 10 + n % 10 == n) by {
            vstd::arithmetic::div_mod::lemma_fundamental_div_mod(n, 10);
        }
    }
}

proof fn lemma_render_nat_len(n: int, w: int)
    requires
        1 <= w,
        0 <= n < pow10(w),
    ensures
        render_nat(n).len() <= w,
    decreases w,
{
    if n <= 9 {
    } else {
        assert(w >= 2) by {
            if w == 1 {
                assert(pow10(1) == 10) by {
                    reveal_with_fuel(pow10, 2);
                }
            }
        }
        lemma_div10_below(n, pow10(w - 1));
        lemma_render_nat_len(n / 10, w - 1);
    }
}

proof fn lemma_render_fixed_props(n: int, w: int)
    requires
        0 <= w,
        0 <= n < pow10(w),
    ensures
        render_fixed(n, w).len() == w,
        forall|k: int|
            0 <= k < w ==> is_digit_char(#[trigger] render_fixed(n, w)[k]),
        digits_val(render_fixed(n, w)) == n,
    decreases w,
{
    if w > 0 {
        lemma_div10_below(n, pow10(w - 1));
        lemma_render_fixed_props(n / 10, w - 1);
        let pre = render_fixed(n / 10, w - 1);
        let r = render_fixed(n, w);
        assert(r == pre.push(digit_char(n % 10)));
        assert(r.drop_last() =~= pre);
        assert(0 <= n % 10 < 10) by {
            vstd::arithmetic::div_mod::lemma_mod_bound(n, 10);
        }
        assert(n / 10 * 10 + n % 10 == n) by {
            vstd::arithmetic::div_mod::lemma_fundamental_div_mod(n, 10);
        }
    } else {
        assert(n == 0);
    }
}


proof fn lemma_slice_at(s: Seq<char>, i: int, r: Seq<char>, a: int, b: int)
    requires
        0 <= i,
        i + r.len() <= s.len(),
        s.subrange(i, i + r.len()) == r,
        0 <= a <= b <= r.len(),
    ensures
        s.subrange(i + a, i + b) =~= r.subrange(a, b),
{
    assert forall|k: int|
        0 <= k < b - a implies s.subrange(i + a, i + b)[k] == r.subrange(a, b)[k] by {
        assert(s.subrange(i, i + r.len())[a + k] == r[a + k]);
    }
}

proof fn lemma_char_at(s: Seq<char>, i: int, r: Seq<char>, k: int)
    requires
        0 <= i,
        i + r.len() <= s.len(),
        s.subrange(i, i + r.len()) == r,
        0 <= k < r.len(),
    ensures
        s[i + k] == r[k],
{
    assert(s.subrange(i, i + r.len())[k] == r[k]);
}

proof fn lemma_digit_run(s: Seq<char>, i: int, j: int)
    requires
        0 <= i <= j <= s.len(),
        forall|k: int| i <= k < j ==> is_digit_char(#[trigger] s[k]),
        j == s.len() || !is_digit_char(s[j]),
    ensures
        digit_run_end(s, i) == j,
    decreases j - i,
{
    if i < j {
        lemma_digit_run(s, i + 1, j);
    }
}

proof fn lemma_quote_run(s: Seq<char>, i: int, j: int)
    requires
        0 <= i <= j <= s.len(),
        forall|k: int| i <= k < j ==> #[trigger] s[k] != '"',
        j == s.len() || s[j] == '"',
    ensures
        quote_end(s, i) == j,
    decreases j - i,
{
    if i < j {
        lemma_quote_run(s, i + 1, j);
    }
}

proof fn lemma_parse_nat_at(s: Seq<char>, i: int, n: int)
    requires
        0 <= n < 1000000000,
        0 <= i,
        i + render_nat(n).len() <= s.len(),
        s.subrange(i, i + render_nat(n).len()) == render_nat(n),
        i + render_nat(n).len() == s.len() || !is_digit_char(s[i + render_nat(n).len()]),
    ensures
        spec_parse_nat(s, i) == Some((n, i + render_nat(n).len())),
{
    let r = render_nat(n);
    lemma_render_nat_digits(n);
    assert(pow10(9) == 1000000000) by {
        reveal_with_fuel(pow10, 10);
    }
    lemma_render_nat_len(n, 9);
    assert forall|k: int| i <= k < i + r.len() implies is_digit_char(#[trigger] s[k]) by {
        assert(s[k] == s.subrange(i, i + r.len())[k - i]);
    }
    lemma_digit_run(s, i, i + r.len());
    assert(s.subrange(i, i + r.len()) == r);
}

proof fn lemma_parse_value_at(s: Seq<char>, i: int, v: int)
    requires
        -VAL_BOUND <= v <= VAL_BOUND,
        0 <= i,
        i + render_value(v).len() <= s.len(),
        s.subrange(i, i + render_value(v).len()) == render_value(v),
    ensures
        spec_parse_value(s, i) == Some((v as i64, i + render_value(v).len())),
{
    let r = render_value(v);
    let a: int = if v < 0 { -v } else { v };
    let ip = a / 1000000;
    let frac = a % 1000000;
    assert(0 <= ip <= 100) by {
        vstd::arithmetic::div_mod::lemma_div_pos_is_pos(a, 1000000);
        vstd::arithmetic::div_mod::lemma_div_is_ordered(a, 100000000, 1000000);
        assert(100000000int / 1000000 == 100) by {
            vstd::arithmetic::div_mod::lemma_fundamental_div_mod_converse(
                100000000,
                1000000,
                100,
                0,
            );
        }
    }
    assert(0 <= frac < 1000000) by {
        vstd::arithmetic::div_mod::lemma_mod_bound(a, 1000000);
    }
    assert(ip * 1000000 + frac == a) by {
        vstd::arithmetic::div_mod::lemma_fundamental_div_mod(a, 1000000);
    }
    let nr = render_nat(ip);
    let fr = render_fixed(frac, 6);
    lemma_render_nat_digits(ip);
    assert(pow10(6) == 1000000) by {
        reveal_with_fuel(pow10, 7);
    }
    lemma_render_fixed_props(frac, 6);
    let sign: int = if v < 0 { 1 } else { 0 };
    let i1 = i + sign;
    assert(r.len() == sign + nr.len() + 1 + 6);
    assert forall|k: int| i <= k < i + r.len() implies s[k] == r[k - i] by {
        assert(s[k] == s.subrange(i, i + r.len())[k - i]);
    }
    if v < 0 {
        assert(r[0] == '-');
        assert(s[i] == '-');
    } else {
        assert(r[0] == nr[0]);
        assert(is_digit_char(r[0]));
        assert(s[i] != '-');
    }
    // the whole-units digits
    assert forall|k: int| i1 <= k < i1 + nr.len() implies s[k] == nr[k - i1] by {
        assert(r[k - i] == nr[k - i1]);
    }
    assert(s.subrange(i1, i1 + nr.len()) =~= nr);
    let i2 = i1 + nr.len();
    assert(r[sign + nr.len()] == '.');
    assert(s[i2] == '.');
    lemma_parse_nat_at(s, i1, ip);
    // the six fractional digits
    assert forall|k: int| i2 + 1 <= k < i2 + 7 implies s[k] == fr[k - i2 - 1] by {
        assert(r[k - i] == fr[k - i2 - 1]);
    }
    assert forall|k: int| i2 + 1 <= k < i2 + 7 implies is_digit_char(#[trigger] s[k]) by {
        assert(s[k] == fr[k - i2 - 1]);
        assert(is_digit_char(fr[k - i2 - 1]));
    }
    assert(s.subrange(i2 + 1, i2 + 7) =~= fr);
    assert(digits_val(s.subrange(i2 + 1, i2 + 7)) == frac);
}

proof fn lemma_parse_move_key_at(s: Seq<char>, i: int, mv: (usize, usize))
    requires
        mv.0 < 3,
        mv.1 < 3,
        0 <= i,
        i + render_move_key(mv).len() <= s.len(),
        s.subrange(i, i + render_move_key(mv).len()) == render_move_key(mv),
    ensures
        spec_parse_move_key(s, i) == Some((mv, i + render_move_key(mv).len())),
{
    let r = render_move_key(mv);
    let nr0 = render_nat(mv.0 as int);
    let nr1 = render_nat(mv.1 as int);
    lemma_render_nat_digits(mv.0 as int);
    lemma_render_nat_digits(mv.1 as int);
    assert(nr0.len() == 1 && nr1.len() == 1);
    assert(r.len() == 6);
    assert forall|k: int| i <= k < i + r.len() implies s[k] == r[k - i] by {
        assert(s[k] == s.subrange(i, i + r.len())[k - i]);
    }
    assert(s[i] == '(');
    assert(s[i + 1] == nr0[0]);
    assert(s.subrange(i + 1, i + 2) =~= nr0);
    assert(s[i + 2] == ',');
    lemma_parse_nat_at(s, i + 1, mv.0 as int);
    assert(s[i + 3] == ' ');
    assert(s[i + 4] == nr1[0]);
    assert(s.subrange(i + 4, i + 5) =~= nr1);
    assert(s[i + 5] == ')');
    lemma_parse_nat_at(s, i + 4, mv.1 as int);
}

proof fn lemma_parse_moves_entry_at(s: Seq<char>, i: int, e: ((usize, usize), i64))
    requires
        e.0.0 < 3,
        e.0.1 < 3,
        -VAL_BOUND <= e.1 <= VAL_BOUND,
        0 <= i,
        i + render_moves_entry(e).len() <= s.len(),
        s.subrange(i, i + render_moves_entry(e).len()) == render_moves_entry(e),
    ensures
        spec_parse_moves_entry(s, i) == Some((e, i + render_moves_entry(e).len())),
{
    let r = render_moves_entry(e);
    let mk = render_move_key(e.0);
    let vr = render_value(e.1 as int);
    assert(r.len() == 1 + mk.len() + 2 + vr.len());
    assert(r[0] == '"');
    lemma_char_at(s, i, r, 0);
    assert(r.subrange(1, 1 + mk.len() as int) =~= mk);
    lemma_slice_at(s, i, r, 1, 1 + mk.len() as int);
    lemma_parse_move_key_at(s, i + 1, e.0);
    let j = i + 1 + mk.len();
    assert(r[1 + mk.len() as int] == '"');
    lemma_char_at(s, i, r, 1 + mk.len() as int);
    assert(s[j] == '"');
    assert(r[1 + mk.len() as int + 1] == ':');
    lemma_char_at(s, i, r, 1 + mk.len() as int + 1);
    assert(s[j + 1] == ':');
    assert(r.subrange(1 + mk.len() as int + 2, r.len() as int) =~= vr);
    lemma_slice_at(s, i, r, 1 + mk.len() as int + 2, r.len() as int);
    lemma_parse_value_at(s, j + 2, e.1 as int);
    assert(e.1 as int as i64 == e.1);
}

proof fn lemma_parse_moves_entries_at(s: Seq<char>, i: int, es: Seq<((usize, usize), i64)>)
    requires
        es.len() >= 1,
        moves_serializable(es),
        0 <= i,
        i + render_moves_entries(es).len() < s.len(),
        s.subrange(i, i + render_moves_entries(es).len()) == render_moves_entries(es),
        s[i + render_moves_entries(es).len()] == '}',
    ensures
        spec_parse_moves_entries(s, i) == Some((es, i + render_moves_entries(es).len() + 1)),
    decreases es.len(),
{
    let r = render_moves_entries(es);
    let e0 = render_moves_entry(es[0]);
    if es.len() == 1 {
        assert(r == e0);
        lemma_parse_moves_entry_at(s, i, es[0]);
        assert(seq![es[0]] =~= es);
    } else {
        let rest = render_moves_entries(es.drop_first());
        assert(r == e0 + seq![','] + rest);
        assert(r.subrange(0, e0.len() as int) =~= e0);
        lemma_slice_at(s, i, r, 0, e0.len() as int);
        lemma_parse_moves_entry_at(s, i, es[0]);
        let j = i + e0.len();
        assert(r[e0.len() as int] == ',');
        lemma_char_at(s, i, r, e0.len() as int);
        assert(s[j] == ',');
        assert(r.subrange(e0.len() + 1int, r.len() as int) =~= rest);
        lemma_slice_at(s, i, r, e0.len() + 1int, r.len() as int);
        assert(moves_serializable(es.drop_first())) by {
            assert(forall|k: int|
                0 <= k < es.drop_first().len() ==> es.drop_first()[k] == es[k + 1]);
        }
        lemma_parse_moves_entries_at(s, j + 1, es.drop_first());
        assert(seq![es[0]] + es.drop_first() =~= es);
    }
}

proof fn lemma_parse_moves_at(s: Seq<char>, i: int, es: Seq<((usize, usize), i64)>)
    requires
        moves_serializable(es),
        0 <= i,
        i + render_moves(es).len() <= s.len(),
        s.subrange(i, i + render_moves(es).len()) == render_moves(es),
    ensures
        spec_parse_moves(s, i) == Some((es, i + render_moves(es).len())),
{
    let r = render_moves(es);
    let inner = render_moves_entries(es);
    assert(r == seq!['{'] + inner + seq!['}']);
    assert(r[0] == '{');
    lemma_char_at(s, i, r, 0);
    assert(s[i] == '{');
    assert(r[r.len() - 1] == '}');
    lemma_char_at(s, i, r, r.len() - 1);
    if es.len() == 0 {
        assert(r.len() == 2);
        assert(s[i + 1] == '}');
        assert(es =~= Seq::<((usize, usize), i64)>::empty());
    } else {
        let e0 = render_moves_entry(es[0]);
        assert(inner[0] == e0[0]);
        assert(e0[0] == '"');
        assert(r[1] == inner[0]);
        lemma_char_at(s, i, r, 1);
        assert(s[i + 1] == '"');
        assert(r.subrange(1, 1 + inner.len() as int) =~= inner);
        lemma_slice_at(s, i, r, 1, 1 + inner.len() as int);
        assert(s[i + 1 + inner.len() as int] == '}');
        lemma_parse_moves_entries_at(s, i + 1, es);
    }
}

proof fn lemma_parse_table_entry_at(
    s: Seq<char>,
    i: int,
    e: (Seq<char>, Seq<((usize, usize), i64)>),
)
    requires
        key_renderable(e.0),
        moves_serializable(e.1),
        0 <= i,
        i + render_table_entry(e).len() <= s.len(),
        s.subrange(i, i + render_table_entry(e).len()) == render_table_entry(e),
    ensures
        spec_parse_table_entry(s, i) == Some((e, i + render_table_entry(e).len())),
{
    let r = render_table_entry(e);
    let mr = render_moves(e.1);
    assert(r.len() == 1 + e.0.len() + 2 + mr.len());
    assert(r[0] == '"');
    lemma_char_at(s, i, r, 0);
    let q = i + 1 + e.0.len();
    assert forall|k: int| i + 1 <= k < q implies #[trigger] s[k] != '"' by {
        lemma_char_at(s, i, r, k - i);
        assert(r[k - i] == e.0[k - i - 1]);
    }
    assert(r[1 + e.0.len() as int] == '"');
    lemma_char_at(s, i, r, 1 + e.0.len() as int);
    assert(s[q] == '"');
    lemma_quote_run(s, i + 1, q);
    assert(r[1 + e.0.len() as int + 1] == ':');
    lemma_char_at(s, i, r, 1 + e.0.len() as int + 1);
    assert(s[q + 1] == ':');
    assert(r.subrange(1 + e.0.len() as int + 2, r.len() as int) =~= mr);
    lemma_slice_at(s, i, r, 1 + e.0.len() as int + 2, r.len() as int);
    lemma_parse_moves_at(s, q + 2, e.1);
    assert(r.subrange(1, 1 + e.0.len() as int) =~= e.0);
    lemma_slice_at(s, i, r, 1, 1 + e.0.len() as int);
    assert(s.subrange(i + 1, q) =~= e.0);
}

proof fn lemma_parse_table_entries_at(
    s: Seq<char>,
    i: int,
    es: Seq<(Seq<char>, Seq<((usize, usize), i64)>)>,
)
    requires
        es.len() >= 1,
        table_serializable(es),
        0 <= i,
        i + render_table_entries(es).len() < s.len(),
        s.subrange(i, i + render_table_entries(es).len()) == render_table_entries(es),
        s[i + render_table_entries(es).len()] == '}',
    ensures
        spec_parse_table_entries(s, i) == Some((es, i + render_table_entries(es).len() + 1)),
    decreases es.len(),
{
    let r = render_table_entries(es);
    let e0 = render_table_entry(es[0]);
    if es.len() == 1 {
        assert(r == e0);
        lemma_parse_table_entry_at(s, i, es[0]);
        assert(seq![es[0]] =~= es);
    } else {
        let rest = render_table_entries(es.drop_first());
        assert(r == e0 + seq![','] + rest);
        assert(r.subrange(0, e0.len() as int) =~= e0);
        lemma_slice_at(s, i, r, 0, e0.len() as int);
        lemma_parse_table_entry_at(s, i, es[0]);
        let j = i + e0.len();
        assert(r[e0.len() as int] == ',');
        lemma_char_at(s, i, r, e0.len() as int);
        assert(s[j] == ',');
        assert(r.subrange(e0.len() + 1int, r.len() as int) =~= rest);
        lemma_slice_at(s, i, r, e0.len() + 1int, r.len() as int);
        assert(table_serializable(es.drop_first())) by {
            assert(forall|k: int|
                0 <= k < es.drop_first().len() ==> es.drop_first()[k] == es[k + 1]);
        }
        lemma_parse_table_entries_at(s, j + 1, es.drop_first());
        assert(seq![es[0]] + es.drop_first() =~= es);
    }
}

/// Round trip: parsing the rendered record of any serializable store yields
/// exactly the store's entries. Together with the contracts of the rendering
/// and parsing functions, a populated store written out and read back
/// reproduces an equal mapping of state keys to move tables.
pub proof fn lemma_record_round_trip(es: Seq<(Seq<char>, Seq<((usize, usize), i64)>)>)
    requires
        table_serializable(es),
    ensures
        spec_parse_qtable(spec_render_qtable(es)) == Some(es),
{
    let s = spec_render_qtable(es);
    let inner = render_table_entries(es);
    let hd = record_header();
    assert(s.len() == 11 + inner.len() + 2);
    assert(s.subrange(0, 11) =~= hd);
    assert forall|k: int| 11 <= k < 11 + inner.len() implies s[k] == inner[k - 11] by {
        assert(s[k] == (hd + inner + seq!['}', '}'])[k]);
    }
    assert(s[s.len() - 2] == '}');
    assert(s[s.len() - 1] == '}');
    if es.len() == 0 {
        assert(s.len() == 13);
        assert(s[11] == '}');
        assert(es =~= Seq::<(Seq<char>, Seq<((usize, usize), i64)>)>::empty());
    } else {
        let e0 = render_table_entry(es[0]);
        assert(inner[0] == e0[0]);
        assert(e0[0] == '"');
        assert(s[11] == '"');
        assert(s.subrange(11, 11 + inner.len() as int) =~= inner);
        assert(s[11 + inner.len() as int] == '}');
        lemma_parse_table_entries_at(s, 11, es);
        assert(11 + inner.len() as int + 1 + 1 == s.len());
        assert(s[11 + inner.len() as int + 1] == '}');
    }
}

// ---------------------------------------------------------------------------
// The executable renderer.
// ---------------------------------------------------------------------------

fn digit_of(d: u64) -> (r: char)
    requires
        d < 10,
    ensures
        r == digit_char(d as int),
{
    if d == 0 {
        '0'
    } else if d == 1 {
        '1'
    } else if d == 2 {
        '2'
    } else if d == 3 {
        '3'
    } else if d == 4 {
        '4'
    } else if d == 5 {
        '5'
    } else if d == 6 {
        '6'
    } else if d == 7 {
        '7'
    } else if d == 8 {
        '8'
    } else {
        '9'
    }
}

fn push_nat(out: &mut Vec<char>, n: u64)
    ensures
        final(out)@ == old(out)@ + render_nat(n as int),
    decreases n,
{
    if n <= 9 {
        out.push(digit_of(n));
        proof {
            assert(final(out)@ =~= old(out)@ + render_nat(n as int));
        }
    } else {
        push_nat(out, n / 10);
        out.push(digit_of(n % 10));
        proof {
            assert(n as int / 10 == (n / 10) as int);
            assert(final(out)@ =~= old(out)@ + render_nat(n as int));
        }
    }
}

fn push_fixed(out: &mut Vec<char>, n: u64, w: u64)
    ensures
        final(out)@ == old(out)@ + render_fixed(n as int, w as int),
    decreases w,
{
    if w == 0 {
        proof {
            assert(final(out)@ =~= old(out)@ + render_fixed(n as int, 0));
        }
    } else {
        push_fixed(out, n / 10, w - 1);
        out.push(digit_of(n % 10));
        proof {
            assert(final(out)@ =~= old(out)@ + render_fixed(n as int, w as int));
        }
    }
}

fn push_value(out: &mut Vec<char>, v: i64)
    requires
        -VAL_BOUND <= v <= VAL_BOUND,
    ensures
        final(out)@ == old(out)@ + render_value(v as int),
{
    let a: u64 = if v < 0 {
        (-v) as u64
    } else {
        v as u64
    };
    if v < 0 {
        out.push('-');
    }
    push_nat(out, a / 1000000);
    out.push('.');
    push_fixed(out, a % 1000000, 6);
    proof {
        assert((a / 1000000) as int == a as int / 1000000);
        assert((a % 1000000) as int == a as int % 1000000);
        assert(final(out)@ =~= old(out)@ + render_value(v as int));
    }
}

fn push_move_key(out: &mut Vec<char>, mv: (usize, usize))
    requires
        mv.0 < 3,
        mv.1 < 3,
    ensures
        final(out)@ == old(out)@ + render_move_key(mv),
{
    out.push('(');
    push_nat(out, mv.0 as u64);
    out.push(',');
    out.push(' ');
    push_nat(out, mv.1 as u64);
    out.push(')');
    proof {
        assert((mv.0 as u64) as int == mv.0 as int);
        assert((mv.1 as u64) as int == mv.1 as int);
        assert(final(out)@ =~= old(out)@ + render_move_key(mv));
    }
}

fn push_moves_entries(out: &mut Vec<char>, m: &Vec<((usize, usize), i64)>, i: usize)
    requires
        moves_serializable(m@),
        i <= m@.len(),
    ensures
        final(out)@ == old(out)@ + render_moves_entries(m@.subrange(i as int, m@.len() as int)),
    decreases m@.len() - i,
{
    if i == m.len() {
        proof {
            assert(m@.subrange(i as int, m@.len() as int) =~= Seq::empty());
            assert(final(out)@ =~= old(out)@ + render_moves_entries(Seq::empty()));
        }
    } else {
        let e = m[i];
        out.push('"');
        push_move_key(out, e.0);
        out.push('"');
        out.push(':');
        push_value(out, e.1);
        if i + 1 < m.len() {
            out.push(',');
        }
        push_moves_entries(out, m, i + 1);
        proof {
            let tail = m@.subrange(i as int, m@.len() as int);
            assert(tail[0] == e);
            assert(tail.drop_first() =~= m@.subrange(i as int + 1, m@.len() as int));
            assert(final(out)@ =~= old(out)@ + render_moves_entries(tail));
        }
    }
}

fn push_key_chars(out: &mut Vec<char>, key: &str)
    ensures
        final(out)@ == old(out)@ + key@,
{
    let n = key.unicode_len();
    let mut k: usize = 0;
    while k < n
        invariant
            n == key@.len(),
            k <= n,
            out@ == old(out)@ + key@.subrange(0, k as int),
        decreases n - k,
    {
        out.push(key.get_char(k));
        proof {
            assert(out@ =~= old(out)@ + key@.subrange(0, k as int + 1));
        }
        k = k + 1;
    }
    proof {
        assert(key@.subrange(0, n as int) =~= key@);
    }
}

fn push_table_entries(out: &mut Vec<char>, t: &Vec<(String, Moves)>, i: usize)
    requires
        table_serializable(table_abs(t@)),
        i <= t@.len(),
    ensures
        final(out)@ == old(out)@ + render_table_entries(
            table_abs(t@).subrange(i as int, t@.len() as int),
        ),
    decreases t@.len() - i,
{
    if i == t.len() {
        proof {
            assert(table_abs(t@).subrange(i as int, t@.len() as int) =~= Seq::empty());
            assert(final(out)@ =~= old(out)@ + render_table_entries(Seq::empty()));
        }
    } else {
        proof {
            assert(table_abs(t@)[i as int] == (t@[i as int].0@, t@[i as int].1.moves@));
        }
        out.push('"');
        push_key_chars(out, t[i].0.as_str());
        out.push('"');
        out.push(':');
        out.push('{');
        push_moves_entries(out, &t[i].1.moves, 0);
        out.push('}');
        if i + 1 < t.len() {
            out.push(',');
        }
        push_table_entries(out, t, i + 1);
        proof {
            let tail = table_abs(t@).subrange(i as int, t@.len() as int);
            assert(tail[0] == table_abs(t@)[i as int]);
            assert(tail.drop_first() =~= table_abs(t@).subrange(i as int + 1, t@.len() as int));
            assert(t@[i as int].1.moves@.subrange(0, t@[i as int].1.moves@.len() as int) =~= t@[
                i as int
            ].1.moves@);
            assert(final(out)@ =~= old(out)@ + render_table_entries(tail));
        }
    }
}

/// Render a store as its durable textual record.
pub fn render_qtable(q: &QTable) -> (r: String)
    requires
        table_serializable(table_abs(q.qtable@)),
    ensures
        r@ == spec_render_qtable(table_abs(q.qtable@)),
{
    let mut out: Vec<char> = Vec::new();
    out.push('{');
    out.push('"');
    out.push('q');
    out.push('t');
    out.push('a');
    out.push('b');
    out.push('l');
    out.push('e');
    out.push('"');
    out.push(':');
    out.push('{');
    proof {
        assert(out@ =~= record_header());
    }
    push_table_entries(&mut out, &q.qtable, 0);
    out.push('}');
    out.push('}');
    let r = chars_to_string(&out);
    proof {
        assert(table_abs(q.qtable@).subrange(0, q.qtable@.len() as int) =~= table_abs(q.qtable@));
        assert(r@ =~= spec_render_qtable(table_abs(q.qtable@)));
    }
    r
}

// ---------------------------------------------------------------------------
// The executable parser.
// ---------------------------------------------------------------------------

/// Reading a record back succeeds exactly when the text parses and the
/// entries make a well-formed store: keys and move entries distinct, values
/// bounded.
pub open spec fn decode_ok(es: Seq<(Seq<char>, Seq<((usize, usize), i64)>)>) -> bool {
    &&& forall|i: int, j: int| 0 <= i < j < es.len() ==> (#[trigger] es[i]).0 != (#[trigger] es[j]).0
    &&& forall|i: int| 0 <= i < es.len() ==> entries_distinct((#[trigger] es[i]).1)
    &&& forall|i: int| 0 <= i < es.len() ==> entries_bounded((#[trigger] es[i]).1)
}

/// What reading a record yields: the parsed entries, if they make a
/// well-formed store.
pub open spec fn spec_decode(s: Seq<char>) -> Option<
    Seq<(Seq<char>, Seq<((usize, usize), i64)>)>,
> {
    match spec_parse_qtable(s) {
        Option::None => Option::None,
        Option::Some(es) => if decode_ok(es) {
            Option::Some(es)
        } else {
            Option::None
        },
    }
}

fn is_digit(c: char) -> (r: bool)
    ensures
        r == is_digit_char(c),
{
    c == '0' || c == '1' || c == '2' || c == '3' || c == '4' || c == '5' || c == '6' || c == '7'
        || c == '8' || c == '9'
}

fn dval(c: char) -> (r: u64)
    requires
        is_digit_char(c),
    ensures
        r == digit_val(c),
        r < 10,
{
    if c == '0' {
        0
    } else if c == '1' {
        1
    } else if c == '2' {
        2
    } else if c == '3' {
        3
    } else if c == '4' {
        4
    } else if c == '5' {
        5
    } else if c == '6' {
        6
    } else if c == '7' {
        7
    } else if c == '8' {
        8
    } else {
        9
    }
}

proof fn lemma_pow10_pos(w: int)
    ensures
        pow10(w) >= 1,
    decreases w,
{
    if w > 0 {
        lemma_pow10_pos(w - 1);
    }
}

proof fn lemma_pow10_mono(a: int, b: int)
    requires
        a <= b,
    ensures
        pow10(a) <= pow10(b),
    decreases b - a,
{
    lemma_pow10_pos(a);
    if a < b {
        lemma_pow10_mono(a, b - 1);
        lemma_pow10_pos(b - 1);
    }
}

proof fn lemma_digits_val_bound(ds: Seq<char>)
    ensures
        0 <= digits_val(ds) < pow10(ds.len() as int),
    decreases ds.len(),
{
    if ds.len() > 0 {
        lemma_digits_val_bound(ds.drop_last());
    }
}

fn run_end_exec(s: &Vec<char>, i: usize) -> (r: usize)
    requires
        i <= s@.len(),
    ensures
        r == digit_run_end(s@, i as int),
        i <= r <= s@.len(),
{
    let n = s.len();
    let mut j = i;
    while j < n && is_digit(s[j])
        invariant
            i <= j <= n,
            n == s@.len(),
            digit_run_end(s@, i as int) == digit_run_end(s@, j as int),
        decreases n - j,
    {
        j = j + 1;
    }
    j
}

fn parse_nat_at(s: &Vec<char>, i: usize) -> (r: Option<(u64, usize)>)
    requires
        i <= s@.len(),
    ensures
        match r {
            Some(p) => spec_parse_nat(s@, i as int) == Some((p.0 as int, p.1 as int)) && p.1
                <= s@.len() && p.0 < 1000000000,
            None => spec_parse_nat(s@, i as int) is None,
        },
{
    let j = run_end_exec(s, i);
    if j == i || j - i > 9 {
        return None;
    }
    let ghost ds = s@.subrange(i as int, j as int);
    proof {
        lemma_digits_val_bound(ds);
        assert(pow10(9) == 1000000000) by {
            reveal_with_fuel(pow10, 10);
        }
        lemma_pow10_mono(ds.len() as int, 9);
    }
    let mut acc: u64 = 0;
    let mut k = i;
    while k < j
        invariant
            i <= k <= j <= s@.len(),
            j == digit_run_end(s@, i as int),
            j - i <= 9,
            acc == digits_val(s@.subrange(i as int, k as int)),
            0 <= acc < 1000000000,
        decreases j - k,
    {
        proof {
            lemma_digits_val_bound(s@.subrange(i as int, k as int));
            assert(pow10(9) == 1000000000) by {
                reveal_with_fuel(pow10, 10);
            }
            lemma_pow10_mono(k - i, 8);
            assert(pow10(8) == 100000000) by {
                reveal_with_fuel(pow10, 9);
            }
            // every character of the run is a digit
            lemma_digit_run_chars(s@, i as int, k as int);
        }
        let c = s[k];
        let d = dval(c);
        acc = acc * 10 + d;
        k = k + 1;
        proof {
            let pre = s@.subrange(i as int, k - 1);
            let cur = s@.subrange(i as int, k as int);
            assert(cur.drop_last() =~= pre);
            lemma_digits_val_bound(cur);
            lemma_pow10_mono(cur.len() as int, 9);
            assert(pow10(9) == 1000000000) by {
                reveal_with_fuel(pow10, 10);
            }
        }
    }
    proof {
        assert(s@.subrange(i as int, k as int) == ds);
    }
    Some((acc, j))
}

/// Every position inside a digit run holds a digit.
proof fn lemma_digit_run_chars(s: Seq<char>, i: int, k: int)
    requires
        0 <= i <= k <= s.len(),
        k < digit_run_end(s, i),
    ensures
        is_digit_char(s[k]),
    decreases k - i,
{
    if i < k {
        lemma_digit_run_chars(s, i + 1, k);
    }
}

#[verifier::loop_isolation(false)]
fn parse_value_at(s: &Vec<char>, i: usize) -> (r: Option<(i64, usize)>)
    requires
        i <= s@.len(),
    ensures
        match r {
            Some(p) => spec_parse_value(s@, i as int) == Some((p.0, p.1 as int)) && p.1
                <= s@.len() && -VAL_BOUND <= p.0 <= VAL_BOUND,
            None => spec_parse_value(s@, i as int) is None,
        },
{
    let neg = i < s.len() && s[i] == '-';
    let i1 = if neg {
        i + 1
    } else {
        i
    };
    let (ip, i2) = match parse_nat_at(s, i1) {
        Some(p) => p,
        None => {
            return None;
        },
    };
    if !(i2 < s.len() && s.len() - i2 > 6 && s[i2] == '.') {
        return None;
    }
    let mut frac: u64 = 0;
    let mut t: usize = 0;
    while t < 6
        invariant
            t <= 6,
            i2 + 6 < s@.len(),
            frac == digits_val(s@.subrange(i2 + 1, i2 + 1 + t as int)),
            forall|k: int| i2 + 1 <= k < i2 + 1 + t ==> is_digit_char(#[trigger] s@[k]),
            0 <= frac < 1000000,
        decreases 6 - t,
    {
        proof {
            assert(i2 + 1 + t < s@.len());
        }
        let idx = i2 + 1 + t;
        let c = s[idx];
        if !is_digit(c) {
            proof {
                assert(!is_digit_char(s@[i2 + 1 + t as int]));
                assert(!(forall|k: int|
                    i2 + 1 <= k < i2 + 7 ==> is_digit_char(#[trigger] s@[k])));
            }
            return None;
        }
        let d = dval(c);
        proof {
            lemma_digits_val_bound(s@.subrange(i2 + 1, i2 + 1 + t as int));
            assert(pow10(5) == 100000) by {
                reveal_with_fuel(pow10, 6);
            }
            lemma_pow10_mono(t as int, 5);
        }
        frac = frac * 10 + d;
        t = t + 1;
        proof {
            let pre = s@.subrange(i2 + 1, i2 + t as int);
            let cur = s@.subrange(i2 + 1, i2 + 1 + t as int);
            assert(cur.drop_last() =~= pre);
            lemma_digits_val_bound(cur);
            lemma_pow10_mono(cur.len() as int, 6);
            assert(pow10(6) == 1000000) by {
                reveal_with_fuel(pow10, 7);
            }
        }
    }
    let v0: i64 = (ip as i64) * 1000000 + (frac as i64);
    let v: i64 = if neg {
        -v0
    } else {
        v0
    };
    if -VAL_BOUND <= v && v <= VAL_BOUND {
        Some((v, i2 + 7))
    } else {
        None
    }
}

fn parse_move_key_at(s: &Vec<char>, i: usize) -> (r: Option<((usize, usize), usize)>)
    requires
        i <= s@.len(),
    ensures
        match r {
            Some(p) => spec_parse_move_key(s@, i as int) == Some((p.0, p.1 as int)) && p.1
                <= s@.len() && p.0.0 < 3 && p.0.1 < 3,
            None => spec_parse_move_key(s@, i as int) is None,
        },
{
    if !(i < s.len() && s[i] == '(') {
        return None;
    }
    let (rr, j) = match parse_nat_at(s, i + 1) {
        Some(p) => p,
        None => {
            return None;
        },
    };
    if !(j < s.len() && j + 1 < s.len() && s[j] == ',' && s[j + 1] == ' ') {
        return None;
    }
    let (cc, k) = match parse_nat_at(s, j + 2) {
        Some(p) => p,
        None => {
            return None;
        },
    };
    if k < s.len() && s[k] == ')' && rr < 3 && cc < 3 {
        Some(((rr as usize, cc as usize), k + 1))
    } else {
        None
    }
}

fn parse_moves_entry_at(s: &Vec<char>, i: usize) -> (r: Option<(((usize, usize), i64), usize)>)
    requires
        i <= s@.len(),
    ensures
        match r {
            Some(p) => spec_parse_moves_entry(s@, i as int) == Some((p.0, p.1 as int)) && p.1
                <= s@.len() && -VAL_BOUND <= p.0.1 <= VAL_BOUND,
            None => spec_parse_moves_entry(s@, i as int) is None,
        },
{
    if !(i < s.len() && s[i] == '"') {
        return None;
    }
    let (mv, j) = match parse_move_key_at(s, i + 1) {
        Some(p) => p,
        None => {
            return None;
        },
    };
    if !(j < s.len() && j + 1 < s.len() && s[j] == '"' && s[j + 1] == ':') {
        return None;
    }
    match parse_value_at(s, j + 2) {
        Some((v, k)) => Some(((mv, v), k)),
        None => None,
    }
}

fn parse_moves_entries_at(s: &Vec<char>, i: usize) -> (r: Option<
    (Vec<((usize, usize), i64)>, usize),
>)
    requires
        i <= s@.len(),
    ensures
        match r {
            Some(p) => spec_parse_moves_entries(s@, i as int) == Some((p.0@, p.1 as int)) && p.1
                <= s@.len() && entries_bounded(p.0@),
            None => spec_parse_moves_entries(s@, i as int) is None,
        },
    decreases s@.len() - i,
{
    let (e, j) = match parse_moves_entry_at(s, i) {
        Some(p) => p,
        None => {
            return None;
        },
    };
    if j < s.len() && s[j] == '}' {
        let mut out: Vec<((usize, usize), i64)> = Vec::new();
        out.push(e);
        proof {
            assert(out@ =~= seq![e]);
        }
        Some((out, j + 1))
    } else if j < s.len() && s[j] == ',' && j >= i {
        match parse_moves_entries_at(s, j + 1) {
            Some((mut rest, k)) => {
                rest.insert(0, e);
                proof {
                    assert(rest@ =~= seq![e] + rest@.subrange(1, rest@.len() as int));
                }
                Some((rest, k))
            },
            None => None,
        }
    } else {
        None
    }
}

fn parse_moves_at(s: &Vec<char>, i: usize) -> (r: Option<(Vec<((usize, usize), i64)>, usize)>)
    requires
        i <= s@.len(),
    ensures
        match r {
            Some(p) => spec_parse_moves(s@, i as int) == Some((p.0@, p.1 as int)) && p.1
                <= s@.len() && entries_bounded(p.0@),
            None => spec_parse_moves(s@, i as int) is None,
        },
{
    if !(i < s.len() && s[i] == '{') {
        return None;
    }
    if i + 1 < s.len() && s[i + 1] == '}' {
        let out: Vec<((usize, usize), i64)> = Vec::new();
        proof {
            assert(out@ =~= Seq::<((usize, usize), i64)>::empty());
        }
        Some((out, i + 2))
    } else {
        parse_moves_entries_at(s, i + 1)
    }
}

fn quote_end_exec(s: &Vec<char>, i: usize) -> (r: usize)
    requires
        i <= s@.len(),
    ensures
        r == quote_end(s@, i as int),
        i <= r <= s@.len(),
{
    let n = s.len();
    let mut j = i;
    while j < n && s[j] != '"'
        invariant
            i <= j <= n,
            n == s@.len(),
            quote_end(s@, i as int) == quote_end(s@, j as int),
        decreases n - j,
    {
        j = j + 1;
    }
    j
}

fn parse_table_entry_at(s: &Vec<char>, i: usize) -> (r: Option<((String, Moves), usize)>)
    requires
        i <= s@.len(),
    ensures
        match r {
            Some(p) => spec_parse_table_entry(s@, i as int) == Some(
                ((p.0.0@, p.0.1.moves@), p.1 as int),
            ) && p.1 <= s@.len() && entries_bounded(p.0.1.moves@),
            None => spec_parse_table_entry(s@, i as int) is None,
        },
{
    if !(i < s.len() && s[i] == '"') {
        return None;
    }
    let q = quote_end_exec(s, i + 1);
    if !(q < s.len() && q + 1 < s.len() && s[q] == '"' && s[q + 1] == ':') {
        return None;
    }
    let mut key_chars: Vec<char> = Vec::new();
    let mut k = i + 1;
    while k < q
        invariant
            i + 1 <= k <= q <= s@.len(),
            key_chars@ == s@.subrange(i + 1, k as int),
        decreases q - k,
    {
        key_chars.push(s[k]);
        k = k + 1;
        proof {
            assert(key_chars@ =~= s@.subrange(i + 1, k as int));
        }
    }
    let key = chars_to_string(&key_chars);
    match parse_moves_at(s, q + 2) {
        Some((entries, j)) => Some(((key, Moves { moves: entries }), j)),
        None => None,
    }
}

fn parse_table_entries_at(s: &Vec<char>, i: usize) -> (r: Option<(Vec<(String, Moves)>, usize)>)
    requires
        i <= s@.len(),
    ensures
        match r {
            Some(p) => spec_parse_table_entries(s@, i as int) == Some(
                (table_abs(p.0@), p.1 as int),
            ) && p.1 <= s@.len() && (forall|x: int|
                0 <= x < p.0@.len() ==> entries_bounded((#[trigger] p.0@[x]).1.moves@)),
            None => spec_parse_table_entries(s@, i as int) is None,
        },
    decreases s@.len() - i,
{
    let (e, j) = match parse_table_entry_at(s, i) {
        Some(p) => p,
        None => {
            return None;
        },
    };
    if j < s.len() && s[j] == '}' {
        let mut out: Vec<(String, Moves)> = Vec::new();
        let ghost abs_e = (e.0@, e.1.moves@);
        out.push(e);
        proof {
            assert(table_abs(out@) =~= seq![abs_e]);
        }
        Some((out, j + 1))
    } else if j < s.len() && s[j] == ',' && j >= i {
        match parse_table_entries_at(s, j + 1) {
            Some((mut rest, k)) => {
                let ghost abs_e = (e.0@, e.1.moves@);
                let ghost abs_rest = table_abs(rest@);
                rest.insert(0, e);
                proof {
                    assert(table_abs(rest@) =~= seq![abs_e] + abs_rest);
                }
                Some((rest, k))
            },
            None => None,
        }
    } else {
        None
    }
}

/// Read a record back into a store. Succeeds exactly when the text is a
/// well-formed record whose entries make a well-formed store: malformed text,
/// a repeated state key, a repeated move, or an out-of-bounds value all
/// refuse the record, leaving any in-memory store untouched.
#[verifier::loop_isolation(false)]
pub fn parse_qtable(s: &str) -> (r: Option<QTable>)
    ensures
        match r {
            Some(t) => t.wf() && spec_decode(s@) == Some(table_abs(t.qtable@)),
            None => spec_decode(s@) is None,
        },
{
    let n = s.unicode_len();
    let mut chars: Vec<char> = Vec::new();
    let mut ci: usize = 0;
    while ci < n
        invariant
            ci <= n,
            n == s@.len(),
            chars@ == s@.subrange(0, ci as int),
        decreases n - ci,
    {
        chars.push(s.get_char(ci));
        ci = ci + 1;
        proof {
            assert(chars@ =~= s@.subrange(0, ci as int));
        }
    }
    proof {
        assert(chars@ =~= s@);
    }
    if chars.len() < 13 {
        return None;
    }
    let header_ok = chars[0] == '{' && chars[1] == '"' && chars[2] == 'q' && chars[3] == 't'
        && chars[4] == 'a' && chars[5] == 'b' && chars[6] == 'l' && chars[7] == 'e' && chars[8]
        == '"' && chars[9] == ':' && chars[10] == '{';
    if !header_ok {
        proof {
            if s@.subrange(0, 11) == record_header() {
                assert(s@[0] == record_header()[0]);
                assert(s@[1] == record_header()[1]);
                assert(s@[2] == record_header()[2]);
                assert(s@[3] == record_header()[3]);
                assert(s@[4] == record_header()[4]);
                assert(s@[5] == record_header()[5]);
                assert(s@[6] == record_header()[6]);
                assert(s@[7] == record_header()[7]);
                assert(s@[8] == record_header()[8]);
                assert(s@[9] == record_header()[9]);
                assert(s@[10] == record_header()[10]);
            }
        }
        return None;
    }
    proof {
        assert(s@.subrange(0, 11) =~= record_header());
    }
    if chars[11] == '}' {
        if chars.len() == 13 && chars[12] == '}' {
            let t = QTable::new();
            proof {
                assert(table_abs(t.qtable@) =~= Seq::<
                    (Seq<char>, Seq<((usize, usize), i64)>),
                >::empty());
            }
            return Some(t);
        } else {
            return None;
        }
    }
    let (entries, j) = match parse_table_entries_at(&chars, 11) {
        Some(p) => p,
        None => {
            return None;
        },
    };
    if !(j < chars.len() && j + 1 == chars.len() && chars[j] == '}') {
        return None;
    }
    // the entries must make a well-formed store: no repeated key, no repeated
    // move, every value in bounds
    let ghost abs = table_abs(entries@);
    let en = entries.len();
    let mut a: usize = 0;
    while a < en
        invariant
            en == entries@.len(),
            a <= en,
            abs == table_abs(entries@),
            forall|x: int, y: int| 0 <= x < y < a ==> (#[trigger] abs[x]).0 != (#[trigger] abs[y]).0,
            forall|x: int| 0 <= x < a ==> entries_distinct((#[trigger] abs[x]).1),
        decreases en - a,
    {
        let mut b: usize = 0;
        while b < a
            invariant
                en == entries@.len(),
                b <= a < en,
                abs == table_abs(entries@),
                forall|y: int| 0 <= y < b ==> (#[trigger] abs[y]).0 != abs[a as int].0,
            decreases a - b,
        {
            if crate::util::str_eq(entries[b].0.as_str(), entries[a].0.as_str()) {
                proof {
                    assert(abs[b as int].0 == entries@[b as int].0@);
                    assert(abs[a as int].0 == entries@[a as int].0@);
                    assert(!decode_ok(abs));
                }
                return None;
            }
            b = b + 1;
        }
        let mlen = entries[a].1.moves.len();
        let mut x: usize = 0;
        while x < mlen
            invariant
                en == entries@.len(),
                a < en,
                abs == table_abs(entries@),
                mlen == entries@[a as int].1.moves@.len(),
                x <= mlen,
                forall|u: int, w: int|
                    0 <= u < w < mlen && w < x ==> entries@[a as int].1.moves@[u].0 != entries@[
                        a as int
                    ].1.moves@[w].0,
            decreases mlen - x,
        {
            let exa = entries[a].1.moves[x];
            let mut y: usize = 0;
            while y < x
                invariant
                    en == entries@.len(),
                    a < en,
                    x < mlen,
                    mlen == entries@[a as int].1.moves@.len(),
                    y <= x,
                    exa == entries@[a as int].1.moves@[x as int],
                    forall|u: int|
                        0 <= u < y ==> entries@[a as int].1.moves@[u].0 != entries@[
                            a as int
                        ].1.moves@[x as int].0,
                decreases x - y,
            {
                let eya = entries[a].1.moves[y];
                if eya.0.0 == exa.0.0 && eya.0.1 == exa.0.1 {
                    proof {
                        assert(abs[a as int].1 == entries@[a as int].1.moves@);
                        assert(entries@[a as int].1.moves@[y as int].0 == entries@[
                            a as int
                        ].1.moves@[x as int].0);
                        assert(!entries_distinct(abs[a as int].1));
                        assert(!decode_ok(abs));
                    }
                    return None;
                }
                y = y + 1;
            }
            x = x + 1;
        }
        proof {
            assert(entries_distinct(abs[a as int].1)) by {
                assert(abs[a as int].1 == entries@[a as int].1.moves@);
            }
        }
        a = a + 1;
    }
    let t = QTable { qtable: entries };
    proof {
        assert(decode_ok(abs));
        assert(t.wf()) by {
            assert(forall|x: int|
                0 <= x < t.qtable@.len() ==> (#[trigger] t.qtable@[x]).1.moves@ == abs[x].1);
            assert forall|x: int, y: int|
                0 <= x < y < t.qtable@.len() implies t.qtable@[x].0@ != t.qtable@[y].0@ by {
                assert(abs[x].0 == t.qtable@[x].0@ && abs[y].0 == t.qtable@[y].0@);
            }
        }
    }
    Some(t)
}

/// Round trip: reading back the rendered record of a well-formed,
/// serializable store yields exactly the store's entries, and with them an
/// equal mapping of state keys to move tables.
pub proof fn lemma_store_round_trip(t: Seq<(String, Moves)>)
    requires
        table_keys_distinct(t),
        forall|i: int| 0 <= i < t.len() ==> (#[trigger] t[i]).1.wf() && t[i].1.bounded(),
        table_serializable(table_abs(t)),
    ensures
        spec_decode(spec_render_qtable(table_abs(t))) == Some(table_abs(t)),
{
    lemma_record_round_trip(table_abs(t));
    assert(decode_ok(table_abs(t))) by {
        assert(forall|i: int|
            0 <= i < t.len() ==> (#[trigger] table_abs(t)[i]).1 == t[i].1.moves@);
        assert forall|i: int, j: int|
            0 <= i < j < table_abs(t).len() implies (#[trigger] table_abs(t)[i]).0 != (
        #[trigger] table_abs(t)[j]).0 by {
            assert(table_abs(t)[i].0 == t[i].0@ && table_abs(t)[j].0 == t[j].0@);
        }
    }
}

} // verus!
