//! Text primitives of the wire encoding: escaped strings and decimal ports.
use vstd::prelude::*;
use vstd::std_specs::iter::IteratorSpec;
use vstd::string::{axiom_spec_iter, next_postcondition};

verus! {

/// Relies on String::push: appends one character.
pub assume_specification[ String::push ](s: &mut String, ch: char)
    ensures
        final(s)@ == old(s)@.push(ch),
;

/// The characters of `s`, in order.
pub fn chars_of(s: &str) -> (r: Vec<char>)
    ensures
        r@ == s@,
{
    broadcast use axiom_spec_iter, next_postcondition;
    let mut it = s.chars();
    let mut out: Vec<char> = Vec::new();
    loop
        invariant
            out@ + IteratorSpec::remaining(&it) == s@,
        decreases s@.len() - out@.len(),
    {
        match it.next() {
            Some(c) => {
                out.push(c);
            },
            None => {
                return out;
            },
        }
    }
}


/// The lower-case hexadecimal digit of `n < 16`.
pub open spec fn hex_char(n: nat) -> char {
    if n < 10 {
        ((n + 48) as u8) as char
    } else {
        ((n + 87) as u8) as char
    }
}

/// How one character stands inside a quoted string: quote and backslash
/// are escaped with a backslash, control characters as `\u00XX`.
pub open spec fn esc_char(c: char) -> Seq<char> {
    if c == '"' {
        seq!['\\', '"']
    } else if c == '\\' {
        seq!['\\', '\\']
    } else if (c as u32) < 32 {
        seq!['\\', 'u', '0', '0', hex_char((c as u32 / 16) as nat), hex_char((c as u32 % 16) as nat)]
    } else {
        seq![c]
    }
}

/// The escaped form of a string, without its quotes.
pub open spec fn escape(s: Seq<char>) -> Seq<char>
    decreases s.len(),
{
    if s.len() == 0 {
        Seq::empty()
    } else {
        escape(s.drop_last()) + esc_char(s.last())
    }
}

/// The decimal digit of `n < 10`.
pub open spec fn digit_char(n: nat) -> char {
    ((n + 48) as u8) as char
}

/// The decimal form of `n`, without leading zeros.
pub open spec fn dec(n: nat) -> Seq<char>
    decreases n,
{
    if n < 10 {
        seq![digit_char(n)]
    } else {
        dec(n / 10) + seq![digit_char(n % 10)]
    }
}

/// The value of a run of decimal digits.
pub open spec fn value(ds: Seq<char>) -> nat
    decreases ds.len(),
{
    if ds.len() == 0 {
        0
    } else {
        value(ds.drop_last()) * 10 + ((ds.last() as u32) - 48) as nat
    }
}

/// `c` is a decimal digit.
pub open spec fn is_digit(c: char) -> bool {
    '0' <= c <= '9'
}

/// `lit` stands in `v` at `pos`.
pub open spec fn lit_at_spec(v: Seq<char>, pos: int, lit: Seq<char>) -> bool {
    0 <= pos && pos + lit.len() <= v.len() && v.subrange(pos, pos + lit.len()) == lit
}

/// Escaping distributes over concatenation.
proof fn lemma_escape_concat(a: Seq<char>, b: Seq<char>)
    ensures
        escape(a + b) == escape(a) + escape(b),
    decreases b.len(),
{
    if b.len() == 0 {
        assert(a + b =~= a);
        assert(escape(a) + escape(b) =~= escape(a));
    } else {
        lemma_escape_concat(a, b.drop_last());
        assert((a + b).drop_last() =~= a + b.drop_last());
        assert((a + b).last() == b.last());
        assert(escape(a) + escape(b) =~= escape(a) + escape(b.drop_last()) + esc_char(b.last()));
    }
}

/// Escaping one more character appends its code.
proof fn lemma_escape_push(a: Seq<char>, c: char)
    ensures
        escape(a.push(c)) == escape(a) + esc_char(c),
{
    assert(a.push(c).drop_last() =~= a);
}

/// The escaped form of `x` splits after its first `m` characters.
proof fn lemma_escape_split(x: Seq<char>, m: int)
    requires
        0 <= m < x.len(),
    ensures
        escape(x) == escape(x.subrange(0, m)) + esc_char(x[m]) + escape(x.subrange(m + 1, x.len() as int)),
{
    let a = x.subrange(0, m);
    let b = x.subrange(m + 1, x.len() as int);
    assert(x =~= a.push(x[m]) + b);
    lemma_escape_concat(a.push(x[m]), b);
    lemma_escape_push(a, x[m]);
}

/// The code point of a hexadecimal digit.
proof fn lemma_hex_char(n: nat)
    requires
        n < 16,
    ensures
        n < 10 ==> hex_char(n) as u32 == n + 48,
        n >= 10 ==> hex_char(n) as u32 == n + 87,
{
}

/// Ten to the power `k`.
spec fn pow10(k: nat) -> nat
    decreases k,
{
    if k == 0 {
        1
    } else {
        10 * pow10((k - 1) as nat)
    }
}

/// A number below `10^k` has at most `k` digits.
proof fn lemma_dec_len(n: nat, k: nat)
    requires
        k >= 1,
        n < pow10(k),
    ensures
        dec(n).len() <= k,
    decreases k,
{
    if n >= 10 {
        if k == 1 {
            assert(pow10(1) == 10 * pow10(0));
        } else {
            let p = pow10((k - 1) as nat);
            assert(n / 10 < p) by (nonlinear_arith)
                requires
                    n < 10 * p,
            ;
            lemma_dec_len(n / 10, (k - 1) as nat);
        }
    }
}

/// The decimal form is a non-empty run of digits whose value is the number.
proof fn lemma_dec_digits(n: nat)
    ensures
        forall|i: int| 0 <= i < dec(n).len() ==> is_digit(#[trigger] dec(n)[i]),
        value(dec(n)) == n,
        dec(n).len() >= 1,
        n < 100000 ==> dec(n).len() <= 5,
    decreases n,
{
    let d = dec(n);
    if n >= 10 {
        lemma_dec_digits(n / 10);
        assert(d.drop_last() =~= dec(n / 10));
        assert(forall|i: int| 0 <= i < dec(n / 10).len() ==> d[i] == dec(n / 10)[i]);
        assert(digit_char(n % 10) as u32 == n % 10 + 48);
        assert(d.last() == digit_char(n % 10));
        assert(value(d) == value(dec(n / 10)) * 10 + n % 10);
        assert((n / 10) * 10 + n % 10 == n);
    } else {
        assert(d.drop_last() =~= Seq::<char>::empty());
        assert(digit_char(n) as u32 == n + 48);
        assert(d.last() == digit_char(n));
        assert(value(d) == value(d.drop_last()) * 10 + ((d.last() as u32) - 48) as nat);
    }
    if n < 100000 {
        reveal_with_fuel(pow10, 6);
        lemma_dec_len(n, 5);
    }
}

/// Appends the escaped form of `s` to `out`.
pub fn push_escaped(out: &mut String, s: &str)
    ensures
        final(out)@ == old(out)@ + escape(s@),
{
    let cs = chars_of(s);
    let mut i: usize = 0;
    while i < cs.len()
        invariant
            cs@ == s@,
            i <= cs.len(),
            out@ == old(out)@ + escape(cs@.subrange(0, i as int)),
        decreases cs.len() - i,
    {
        let c = cs[i];
        let ghost before = out@;
        if c == '"' {
            out.push('\\');
            out.push('"');
        } else if c == '\\' {
            out.push('\\');
            out.push('\\');
        } else if (c as u32) < 32 {
            let v = c as u32;
            out.push('\\');
            out.push('u');
            out.push('0');
            out.push('0');
            out.push(hex_digit(v / 16));
            out.push(hex_digit(v % 16));
        } else {
            out.push(c);
        }
        proof {
            assert(out@ =~= before + esc_char(c));
            assert(cs@.subrange(0, i + 1) =~= cs@.subrange(0, i as int).push(c));
            lemma_escape_push(cs@.subrange(0, i as int), c);
        }
        i = i + 1;
    }
    assert(cs@.subrange(0, cs.len() as int) =~= s@);
}

/// The lower-case hexadecimal digit of `n < 16`.
fn hex_digit(n: u32) -> (r: char)
    requires
        n < 16,
    ensures
        r == hex_char(n as nat),
{
    if n < 10 {
        ((n as u8) + 48) as char
    } else {
        ((n as u8) + 87) as char
    }
}

/// Appends the decimal form of `n` to `out`.
pub fn push_decimal(out: &mut String, n: u16)
    ensures
        final(out)@ == old(out)@ + dec(n as nat),
{
    let mut digits: Vec<char> = Vec::new();
    let mut m: u16 = n;
    // digits collected from the least significant one
    while m >= 10
        invariant
            dec(n as nat) == dec(m as nat) + digits@,
        decreases m,
    {
        let d = ((m % 10) as u8 + 48) as char;
        proof {
            assert(dec(m as nat) == dec((m / 10) as nat) + seq![digit_char((m % 10) as nat)]);
            assert(digits@.insert(0, d) =~= seq![d] + digits@);
            assert(dec(n as nat) =~= dec((m / 10) as nat) + digits@.insert(0, d));
        }
        digits.insert(0, d);
        m = m / 10;
    }
    let ghost start = out@;
    out.push(((m as u8) + 48) as char);
    let mut i: usize = 0;
    while i < digits.len()
        invariant
            i <= digits.len(),
            out@ == start + seq![digit_char(m as nat)] + digits@.subrange(0, i as int),
        decreases digits.len() - i,
    {
        out.push(digits[i]);
        assert(digits@.subrange(0, i + 1) =~= digits@.subrange(0, i as int).push(digits@[i as int]));
        i = i + 1;
    }
    assert(digits@.subrange(0, digits.len() as int) =~= digits@);
    assert(dec(m as nat) == seq![digit_char(m as nat)]);
}


/// Two characters whose codes both stand at `k` are the same character.
proof fn lemma_esc_unique(v: Seq<char>, k: int, a: char, b: char)
    requires
        lit_at_spec(v, k, esc_char(a)),
        lit_at_spec(v, k, esc_char(b)),
    ensures
        a == b,
{
    let ea = esc_char(a);
    let eb = esc_char(b);
    assert(ea[0] == v[k]);
    assert(eb[0] == v[k]);
    if ea.len() > 1 && eb.len() > 1 {
        assert(ea[1] == v[k + 1]);
        assert(eb[1] == v[k + 1]);
    }
    if ea.len() == 6 && eb.len() == 6 {
        assert(ea[4] == v[k + 4]);
        assert(eb[4] == v[k + 4]);
        assert(ea[5] == v[k + 5]);
        assert(eb[5] == v[k + 5]);
        let xa = a as u32;
        let xb = b as u32;
        lemma_hex_char((xa / 16) as nat);
        lemma_hex_char((xa % 16) as nat);
        lemma_hex_char((xb / 16) as nat);
        lemma_hex_char((xb % 16) as nat);
        assert(xa == xb);
    }
}

/// An escaped string followed by its closing quote is read back in one way
/// only: the string and what follows the quote are determined.
pub proof fn lemma_escape_prefix(x: Seq<char>, y: Seq<char>, r1: Seq<char>, r2: Seq<char>)
    requires
        escape(x) + seq!['"'] + r1 == escape(y) + seq!['"'] + r2,
    ensures
        x == y,
        r1 == r2,
    decreases x.len() + y.len(),
{
    let v = escape(x) + seq!['"'] + r1;
    if x.len() == 0 && y.len() == 0 {
        assert(escape(x) =~= Seq::<char>::empty());
        assert(escape(y) =~= Seq::<char>::empty());
        assert(r1 =~= v.subrange(1, v.len() as int));
        assert(r2 =~= v.subrange(1, v.len() as int));
        assert(x =~= y);
    } else if x.len() == 0 {
        lemma_escape_split(y, 0);
        assert(escape(y.subrange(0, 0)) =~= Seq::<char>::empty());
        assert(escape(x) =~= Seq::<char>::empty());
        assert(v[0] == '"');
        assert(v[0] == esc_char(y[0])[0]);
    } else if y.len() == 0 {
        lemma_escape_split(x, 0);
        assert(escape(x.subrange(0, 0)) =~= Seq::<char>::empty());
        assert(escape(y) =~= Seq::<char>::empty());
        assert(v[0] == '"');
        assert(v[0] == esc_char(x[0])[0]);
    } else {
        lemma_escape_split(x, 0);
        lemma_escape_split(y, 0);
        assert(escape(x.subrange(0, 0)) =~= Seq::<char>::empty());
        assert(escape(y.subrange(0, 0)) =~= Seq::<char>::empty());
        let xs = x.subrange(1, x.len() as int);
        let ys = y.subrange(1, y.len() as int);
        let ex = esc_char(x[0]);
        let ey = esc_char(y[0]);
        assert(v =~= ex + (escape(xs) + seq!['"'] + r1));
        assert(v =~= ey + (escape(ys) + seq!['"'] + r2));
        assert(v.subrange(0, ex.len() as int) =~= ex);
        assert(v.subrange(0, ey.len() as int) =~= ey);
        lemma_esc_unique(v, 0, x[0], y[0]);
        assert(escape(xs) + seq!['"'] + r1 =~= v.subrange(ex.len() as int, v.len() as int));
        assert(escape(ys) + seq!['"'] + r2 =~= v.subrange(ex.len() as int, v.len() as int));
        lemma_escape_prefix(xs, ys, r1, r2);
        assert(x =~= seq![x[0]] + xs);
        assert(y =~= seq![y[0]] + ys);
    }
}

/// The decimal form of a number determines the number.
pub proof fn lemma_dec_injective(a: nat, b: nat)
    requires
        dec(a) == dec(b),
    ensures
        a == b,
{
    lemma_dec_digits(a);
    lemma_dec_digits(b);
}

/// `c` is a hexadecimal digit of either case.
pub open spec fn is_hex(c: char) -> bool {
    ('0' <= c <= '9') || ('a' <= c <= 'f') || ('A' <= c <= 'F')
}

/// The value of a hexadecimal digit.
pub open spec fn hex_val(c: char) -> int {
    if '0' <= c <= '9' {
        c as int - 48
    } else if 'a' <= c <= 'f' {
        c as int - 87
    } else {
        c as int - 55
    }
}

/// The character a two-character escape other than `\"` and `\\` stands for.
pub open spec fn short_escape(d: char) -> Option<char> {
    if d == 'n' {
        Some('\n')
    } else if d == 'r' {
        Some('\r')
    } else if d == 't' {
        Some('\t')
    } else if d == 'b' {
        Some('\u{8}')
    } else if d == 'f' {
        Some('\u{c}')
    } else if d == '/' {
        Some('/')
    } else {
        None
    }
}

/// `s` rewritten so that every escape stands in the form `esc_char` gives:
/// the short escapes `\n`, `\r`, `\t`, `\b`, `\f`, `\/` and the escapes
/// `\u00XX` of either case become the code of the character they stand for.
/// Everything else is kept.
pub open spec fn normal(s: Seq<char>) -> Seq<char>
    decreases s.len(),
{
    if s.len() == 0 {
        Seq::empty()
    } else if s[0] == '\\' && s.len() >= 2 {
        if short_escape(s[1]) is Some {
            esc_char(short_escape(s[1])->0) + normal(s.subrange(2, s.len() as int))
        } else if s[1] == 'u' && s.len() >= 6 && s[2] == '0' && s[3] == '0' && is_hex(s[4])
            && is_hex(s[5]) {
            esc_char(((hex_val(s[4]) * 16 + hex_val(s[5])) as u8) as char) + normal(
                s.subrange(6, s.len() as int),
            )
        } else {
            seq![s[0], s[1]] + normal(s.subrange(2, s.len() as int))
        }
    } else {
        seq![s[0]] + normal(s.subrange(1, s.len() as int))
    }
}

/// Appends the code of `c` to `out`.
fn push_code(out: &mut Vec<char>, c: char)
    ensures
        final(out)@ == old(out)@ + esc_char(c),
{
    if c == '"' {
        out.push('\\');
        out.push('"');
    } else if c == '\\' {
        out.push('\\');
        out.push('\\');
    } else if (c as u32) < 32 {
        let v = c as u32;
        out.push('\\');
        out.push('u');
        out.push('0');
        out.push('0');
        out.push(hex_digit(v / 16));
        out.push(hex_digit(v % 16));
    } else {
        out.push(c);
    }
    assert(out@ =~= old(out)@ + esc_char(c));
}

/// The value of a hexadecimal digit of either case.
fn hex_value(c: char) -> (r: u32)
    requires
        is_hex(c),
    ensures
        r == hex_val(c),
        r < 16,
{
    if '0' <= c && c <= '9' {
        c as u32 - 48
    } else if 'a' <= c && c <= 'f' {
        c as u32 - 87
    } else {
        c as u32 - 55
    }
}

fn is_hex_exec(c: char) -> (r: bool)
    ensures
        r == is_hex(c),
{
    ('0' <= c && c <= '9') || ('a' <= c && c <= 'f') || ('A' <= c && c <= 'F')
}

/// Rewrites every escape of `v` into the form `esc_char` gives.
pub fn normalize(v: &Vec<char>) -> (r: Vec<char>)
    ensures
        r@ == normal(v@),
{
    let mut out: Vec<char> = Vec::new();
    let mut i: usize = 0;
    assert(v@.subrange(0, v@.len() as int) =~= v@);
    while i < v.len()
        invariant
            i <= v.len(),
            out@ + normal(v@.subrange(i as int, v.len() as int)) == normal(v@),
        decreases v.len() - i,
    {
        let ghost t = v@.subrange(i as int, v.len() as int);
        let ghost before = out@;
        let c = v[i];
        let step: usize;
        if c == '\\' && v.len() - i >= 2 {
            let d = v[i + 1];
            let short: Option<char> = if d == 'n' {
                Some('\n')
            } else if d == 'r' {
                Some('\r')
            } else if d == 't' {
                Some('\t')
            } else if d == 'b' {
                Some('\u{8}')
            } else if d == 'f' {
                Some('\u{c}')
            } else if d == '/' {
                Some('/')
            } else {
                None
            };
            assert(short == short_escape(t[1]));
            match short {
                Some(e) => {
                    push_code(&mut out, e);
                    step = 2;
                },
                None => {
                    if d == 'u' && v.len() - i >= 6 && v[i + 2] == '0' && v[i + 3] == '0'
                        && is_hex_exec(v[i + 4]) && is_hex_exec(v[i + 5]) {
                        let code = hex_value(v[i + 4]) * 16 + hex_value(v[i + 5]);
                        push_code(&mut out, (code as u8) as char);
                        step = 6;
                    } else {
                        out.push(c);
                        out.push(d);
                        assert(out@ =~= before + seq![t[0], t[1]]);
                        step = 2;
                    }
                },
            }
        } else {
            out.push(c);
            step = 1;
        }
        proof {
            assert(t.subrange(step as int, t.len() as int) =~= v@.subrange(i + step, v.len() as int));
            assert(out@ + normal(v@.subrange(i + step, v.len() as int)) =~= before + normal(t));
        }
        i = i + step;
    }
    assert(v@.subrange(v.len() as int, v.len() as int) =~= Seq::<char>::empty());
    assert(out@ + Seq::<char>::empty() =~= out@);
    out
}

/// Rewriting keeps the codes of characters as they are.
proof fn lemma_normal_esc(c: char, rest: Seq<char>)
    ensures
        normal(esc_char(c) + rest) == esc_char(c) + normal(rest),
{
    let s = esc_char(c) + rest;
    let e = esc_char(c);
    assert(s.subrange(e.len() as int, s.len() as int) =~= rest);
    if e.len() == 6 {
        let x = c as u32;
        lemma_hex_char((x / 16) as nat);
        lemma_hex_char((x % 16) as nat);
        assert(s[4] == e[4]);
        assert(s[5] == e[5]);
        assert(hex_val(s[4]) == x / 16);
        assert(hex_val(s[5]) == x % 16);
        assert(((x as u8) as char) == c);
    }
    if e.len() == 2 {
        assert(s[1] == e[1]);
        assert(seq![s[0], s[1]] =~= e);
    }
}

/// Rewriting keeps escaped strings as they are.
pub proof fn lemma_normal_escape(x: Seq<char>, rest: Seq<char>)
    ensures
        normal(escape(x) + rest) == escape(x) + normal(rest),
    decreases x.len(),
{
    if x.len() == 0 {
        assert(escape(x) + rest =~= rest);
        assert(escape(x) + normal(rest) =~= normal(rest));
    } else {
        lemma_escape_split(x, 0);
        assert(escape(x.subrange(0, 0)) =~= Seq::<char>::empty());
        let xs = x.subrange(1, x.len() as int);
        lemma_normal_escape(xs, rest);
        assert(escape(x) + rest =~= esc_char(x[0]) + (escape(xs) + rest));
        lemma_normal_esc(x[0], escape(xs) + rest);
        assert(escape(x) + normal(rest) =~= esc_char(x[0]) + (escape(xs) + normal(rest)));
    }
}

/// Rewriting keeps text without a backslash as it is.
pub proof fn lemma_normal_plain(a: Seq<char>, rest: Seq<char>)
    requires
        forall|i: int| 0 <= i < a.len() ==> a[i] != '\\',
    ensures
        normal(a + rest) == a + normal(rest),
    decreases a.len(),
{
    if a.len() == 0 {
        assert(a + rest =~= rest);
        assert(a + normal(rest) =~= normal(rest));
    } else {
        let s = a + rest;
        let as_ = a.subrange(1, a.len() as int);
        lemma_normal_plain(as_, rest);
        assert(s.subrange(1, s.len() as int) =~= as_ + rest);
        assert(a + normal(rest) =~= seq![a[0]] + (as_ + normal(rest)));
    }
}

/// Decimal digits hold no backslash.
pub proof fn lemma_dec_plain(n: nat)
    ensures
        forall|i: int| 0 <= i < dec(n).len() ==> dec(n)[i] != '\\',
{
    lemma_dec_digits(n);
    assert forall|i: int| 0 <= i < dec(n).len() implies dec(n)[i] != '\\' by {
        assert(is_digit(dec(n)[i]));
    }
}

/// Whether `w` stands in `v` at `pos`.
pub fn matches_at(v: &Vec<char>, pos: usize, w: &Vec<char>) -> (r: bool)
    ensures
        r == lit_at_spec(v@, pos as int, w@),
{
    if pos > v.len() || w.len() > v.len() - pos {
        return false;
    }
    let mut i: usize = 0;
    while i < w.len()
        invariant
            pos + w.len() <= v.len(),
            i <= w.len(),
            forall|j: int| 0 <= j < i ==> v@[pos + j] == w@[j],
        decreases w.len() - i,
    {
        if v[pos + i] != w[i] {
            assert(v@.subrange(pos as int, pos + w.len())[i as int] != w@[i as int]);
            return false;
        }
        i = i + 1;
    }
    assert(v@.subrange(pos as int, pos + w.len()) =~= w@);
    true
}

/// Whether the literal `lit` stands in `v` at `pos`.
pub fn lit_at(v: &Vec<char>, pos: usize, lit: &str) -> (r: bool)
    ensures
        r == lit_at_spec(v@, pos as int, lit@),
{
    let w = chars_of(lit);
    matches_at(v, pos, &w)
}

/// Where the escaped form of `x`, its closing quote and `rest` follow `pos`,
/// and `out`, escaped, already stands between `pos` and `k`, the code of the
/// next character of `x`, or the closing quote, stands at `k`.
proof fn lemma_str_step(
    v: Seq<char>,
    pos: int,
    k: int,
    out: Seq<char>,
    x: Seq<char>,
    rest: Seq<char>,
)
    requires
        0 <= pos <= k <= v.len(),
        escape(x) + seq!['"'] + rest == v.subrange(pos, v.len() as int),
        v.subrange(pos, k) == escape(out),
        out.len() <= x.len(),
        out == x.subrange(0, out.len() as int),
    ensures
        out.len() == x.len() ==> k < v.len() && v[k] == '"',
        out.len() < x.len() ==> lit_at_spec(v, k, esc_char(x[out.len() as int])),
{
    let m = out.len() as int;
    let tail = v.subrange(pos, v.len() as int);
    assert(tail.subrange(0, k - pos) =~= v.subrange(pos, k));
    if m == x.len() {
        assert(out =~= x);
        assert(tail[k - pos] == '"');
    } else {
        lemma_escape_split(x, m);
        assert(x.subrange(0, m) =~= out);
        let e = esc_char(x[m]);
        let after = escape(x.subrange(m + 1, x.len() as int));
        assert(tail =~= escape(out) + e + after + seq!['"'] + rest);
        assert(v.subrange(k, k + e.len()) =~= tail.subrange(k - pos, k - pos + e.len()));
        assert(tail.subrange(k - pos, k - pos + e.len()) =~= e);
    }
}

/// Reads an escaped string and its closing quote from `pos`: the string and
/// the position after the quote. Exactly the escaped forms are accepted.
#[verifier::rlimit(60)]
pub fn parse_str(v: &Vec<char>, pos: usize) -> (r: Option<(String, usize)>)
    requires
        pos <= v.len(),
    ensures
        r matches Some((y, p)) ==> pos < p <= v.len() && v@.subrange(pos as int, p as int)
            == escape(y@) + seq!['"'],
        forall|x: Seq<char>, rest: Seq<char>|
            #[trigger] (escape(x) + seq!['"'] + rest) == v@.subrange(pos as int, v.len() as int)
                ==> (r matches Some((y, p)) && y@ == x && p == pos + escape(x).len() + 1),
{
    let mut out = String::new();
    let mut k: usize = pos;
    assert(v@.subrange(pos as int, pos as int) =~= escape(out@));
    loop
        invariant
            pos <= k <= v.len(),
            v@.subrange(pos as int, k as int) == escape(out@),
            forall|x: Seq<char>, rest: Seq<char>|
                #[trigger] (escape(x) + seq!['"'] + rest) == v@.subrange(pos as int, v.len() as int)
                    ==> out@.len() <= x.len() && out@ == x.subrange(0, out@.len() as int),
        decreases v.len() - k,
    {
        if k >= v.len() {
            proof {
                assert forall|x: Seq<char>, rest: Seq<char>|
                    !(#[trigger] (escape(x) + seq!['"'] + rest) == v@.subrange(pos as int, v.len() as int)) by {
                    if escape(x) + seq!['"'] + rest == v@.subrange(pos as int, v.len() as int) {
                        lemma_str_step(v@, pos as int, k as int, out@, x, rest);
                    }
                }
            }
            return None;
        }
        let c = v[k];
        let ghost before = out@;
        let ghost width: int;
        if c == '"' {
            proof {
                assert(v@.subrange(pos as int, k + 1) =~= escape(out@) + seq!['"']);
                assert forall|x: Seq<char>, rest: Seq<char>|
                    #[trigger] (escape(x) + seq!['"'] + rest) == v@.subrange(pos as int, v.len() as int)
                    implies out@ == x && k + 1 == pos + escape(x).len() + 1 by {
                    lemma_str_step(v@, pos as int, k as int, out@, x, rest);
                    if out@.len() < x.len() {
                        assert(v@.subrange(k as int, k + esc_char(x[out@.len() as int]).len())[0] == v@[k as int]);
                    }
                    assert(out@ =~= x);
                }
            }
            return Some((out, k + 1));
        } else if c == '\\' {
            if k + 1 >= v.len() {
                proof {
                    assert forall|x: Seq<char>, rest: Seq<char>|
                        !(#[trigger] (escape(x) + seq!['"'] + rest) == v@.subrange(pos as int, v.len() as int)) by {
                        if escape(x) + seq!['"'] + rest == v@.subrange(pos as int, v.len() as int) {
                            lemma_str_step(v@, pos as int, k as int, out@, x, rest);
                            if out@.len() < x.len() {
                                let e = esc_char(x[out@.len() as int]);
                                assert(v@.subrange(k as int, k + e.len())[0] == e[0]);
                            }
                        }
                    }
                }
                return None;
            }
            let d = v[k + 1];
            if d == '"' || d == '\\' {
                out.push(d);
                k = k + 2;
                proof { width = 2; }
            } else if d == 'u' && v.len() - k > 5 && v[k + 2] == '0' && v[k + 3] == '0' && (v[k + 4] == '0' || v[k + 4] == '1')
                && (('0' <= v[k + 5] && v[k + 5] <= '9') || ('a' <= v[k + 5] && v[k + 5] <= 'f')) {
                let h = v[k + 4];
                let l = v[k + 5];
                let hv: u32 = if h == '0' { 0 } else { 1 };
                let lv: u32 = if l <= '9' { l as u32 - 48 } else { l as u32 - 87 };
                let code: u32 = hv * 16 + lv;
                let ch = (code as u8) as char;
                proof {
                    assert(ch as u32 == code);
                    assert(hex_char(hv as nat) == h);
                    assert(hex_char(lv as nat) == l);
                    assert(esc_char(ch) =~= v@.subrange(k as int, k + 6));
                }
                out.push(ch);
                k = k + 6;
                proof { width = 6; }
            } else {
                proof {
                    assert forall|x: Seq<char>, rest: Seq<char>|
                        !(#[trigger] (escape(x) + seq!['"'] + rest) == v@.subrange(pos as int, v.len() as int)) by {
                        if escape(x) + seq!['"'] + rest == v@.subrange(pos as int, v.len() as int) {
                            lemma_str_step(v@, pos as int, k as int, out@, x, rest);
                            if out@.len() < x.len() {
                                let e = esc_char(x[out@.len() as int]);
                                let w = v@.subrange(k as int, k + e.len());
                                assert(w[0] == e[0]);
                                if e.len() > 1 {
                                    assert(w[1] == e[1]);
                                }
                                if e.len() == 6 {
                                    assert(w[2] == e[2]);
                                    assert(w[3] == e[3]);
                                    assert(w[4] == e[4]);
                                    assert(w[5] == e[5]);
                                    let xc = x[out@.len() as int] as u32;
                                    lemma_hex_char((xc / 16) as nat);
                                    lemma_hex_char((xc % 16) as nat);
                                }
                            }
                        }
                    }
                }
                return None;
            }
        } else if (c as u32) < 32 {
            proof {
                assert forall|x: Seq<char>, rest: Seq<char>|
                    !(#[trigger] (escape(x) + seq!['"'] + rest) == v@.subrange(pos as int, v.len() as int)) by {
                    if escape(x) + seq!['"'] + rest == v@.subrange(pos as int, v.len() as int) {
                        lemma_str_step(v@, pos as int, k as int, out@, x, rest);
                        if out@.len() < x.len() {
                            let e = esc_char(x[out@.len() as int]);
                            assert(v@.subrange(k as int, k + e.len())[0] == e[0]);
                        }
                    }
                }
            }
            return None;
        } else {
            out.push(c);
            k = k + 1;
            proof { width = 1; }
        }
        proof {
            let k0 = (k - width) as int;
            let ch = out@.last();
            assert(out@ == before.push(ch));
            assert(esc_char(ch) =~= v@.subrange(k0, k as int));
            lemma_escape_push(before, ch);
            assert(v@.subrange(pos as int, k as int) =~= v@.subrange(pos as int, k0) + v@.subrange(k0, k as int));
            assert forall|x: Seq<char>, rest: Seq<char>|
                #[trigger] (escape(x) + seq!['"'] + rest) == v@.subrange(pos as int, v.len() as int)
                implies out@.len() <= x.len() && out@ == x.subrange(0, out@.len() as int) by {
                lemma_str_step(v@, pos as int, k0, before, x, rest);
                let m = before.len() as int;
                assert(lit_at_spec(v@, k0, esc_char(ch)));
                if m == x.len() {
                    assert(v@[k0] == '"');
                    assert(esc_char(ch)[0] == v@[k0]);
                } else {
                    lemma_esc_unique(v@, k0, ch, x[m]);
                    assert(out@ =~= x.subrange(0, m + 1));
                }
            }
        }
    }
}

/// Reads a decimal port from `pos`: the port and the position after its
/// last digit. Exactly the forms without leading zeros are accepted.
pub fn parse_port(v: &Vec<char>, pos: usize) -> (r: Option<(u16, usize)>)
    requires
        pos <= v.len(),
    ensures
        r matches Some((n, p)) ==> pos < p <= v.len() && v@.subrange(pos as int, p as int)
            == dec(n as nat),
        forall|n: u16|
            v@.subrange(pos as int, v.len() as int) == #[trigger] dec(n as nat) + seq!['}']
                ==> r == Some((n, (pos + dec(n as nat).len()) as usize)),
{
    let mut k: usize = pos;
    let mut val: u32 = 0;
    while k < v.len() && k - pos < 5 && '0' <= v[k] && v[k] <= '9'
        invariant
            pos <= k <= v.len(),
            k - pos <= 5,
            val == value(v@.subrange(pos as int, k as int)),
            val < pow10((k - pos) as nat),
            forall|j: int| pos <= j < k ==> is_digit(v@[j]),
        decreases v.len() - k,
    {
        let d = v[k] as u32 - 48;
        proof {
            assert(v@.subrange(pos as int, k + 1).drop_last() =~= v@.subrange(pos as int, k as int));
            assert(pow10((k + 1 - pos) as nat) == 10 * pow10((k - pos) as nat));
            assert(val * 10 + d < 10 * pow10((k - pos) as nat)) by (nonlinear_arith)
                requires
                    val < pow10((k - pos) as nat),
                    d < 10,
            ;
            reveal_with_fuel(pow10, 6);
            assert(pow10(5) == 100000);
            assert(pow10((k - pos) as nat) <= 10000) by {
                if k - pos == 0 {} else if k - pos == 1 {} else if k - pos == 2 {} else if k - pos == 3 {} else {}
            }
        }
        val = val * 10 + d;
        k = k + 1;
    }
    proof {
        assert forall|n: u16|
            v@.subrange(pos as int, v.len() as int) == #[trigger] dec(n as nat) + seq!['}']
            implies k == pos + dec(n as nat).len() && val == n by {
            let e = dec(n as nat);
            lemma_dec_digits(n as nat);
            let t = v@.subrange(pos as int, v.len() as int);
            assert(t.len() == e.len() + 1);
            assert(t[e.len() as int] == v@[pos + e.len()]);
            assert((e + seq!['}'])[e.len() as int] == '}');
            assert forall|j: int| 0 <= j < e.len() implies v@[pos + j] == e[j] by {
                assert(t[j] == v@[pos + j]);
                assert((e + seq!['}'])[j] == e[j]);
            }
            if k > pos + e.len() {
                assert(is_digit(v@[pos + e.len()]));
            }
            if k < pos + e.len() {
                assert(v@[k as int] == e[k - pos]);
                assert(is_digit(e[k - pos]));
            }
            assert(v@.subrange(pos as int, k as int) =~= e);
        }
    }
    if k == pos || val > 65535 {
        proof {
            assert forall|n: u16| v@.subrange(pos as int, v.len() as int) != #[trigger] dec(n as nat) + seq!['}'] by {
                lemma_dec_digits(n as nat);
            }
        }
        return None;
    }
    let n = val as u16;
    let mut enc = String::new();
    push_decimal(&mut enc, n);
    let ec = chars_of(enc.as_str());
    if ec.len() == k - pos && matches_at(v, pos, &ec) {
        Some((n, k))
    } else {
        proof {
            assert forall|n2: u16| v@.subrange(pos as int, v.len() as int) != #[trigger] dec(n2 as nat) + seq!['}'] by {
                if v@.subrange(pos as int, v.len() as int) == dec(n2 as nat) + seq!['}'] {
                    assert(v@.subrange(pos as int, k as int) =~= dec(n2 as nat));
                }
            }
        }
        None
    }
}

} // verus!
