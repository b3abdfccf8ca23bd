//! Text that ends up in paths and files: numerals, path joining, and the order of names.

use vstd::arithmetic::div_mod::{lemma_div_decreases, lemma_fundamental_div_mod};
use vstd::prelude::*;
use vstd::string::*;
use vstd::utf8::*;

verus! {

// ---------------------------------------------------------------------------
// Numerals
// ---------------------------------------------------------------------------

/// The character for the digit `d` in bases up to sixteen, in lower case.
pub open spec fn digit(d: nat) -> char {
    if d < 10 {
        (48 + d) as char
    } else {
        (87 + d) as char
    }
}

/// `n` written in `base`, most significant digit first and without leading zeros.
pub open spec fn numeral(n: nat, base: nat) -> Seq<char>
    decreases n,
{
    if base < 2 || n < base {
        seq![digit(n)]
    } else {
        proof {
            lemma_div_decreases(n as int, base as int);
        }
        numeral(n / base, base).push(digit(n % base))
    }
}

/// `n` in decimal, with a leading minus sign when it is negative.
pub open spec fn decimal(n: int) -> Seq<char> {
    if n < 0 {
        seq!['-'] + numeral((-n) as nat, 10)
    } else {
        numeral(n as nat, 10)
    }
}

/// `n` in hexadecimal, padded with a zero to at least two digits.
pub open spec fn hex_padded(n: nat) -> Seq<char> {
    if n < 16 {
        seq!['0'] + numeral(n, 16)
    } else {
        numeral(n, 16)
    }
}

fn digit_text(d: u128) -> (text: &'static str)
    requires
        d < 16,
    ensures
        text@ == seq![digit(d as nat)],
{
    proof {
        reveal_strlit("0");
        reveal_strlit("1");
        reveal_strlit("2");
        reveal_strlit("3");
        reveal_strlit("4");
        reveal_strlit("5");
        reveal_strlit("6");
        reveal_strlit("7");
        reveal_strlit("8");
        reveal_strlit("9");
        reveal_strlit("a");
        reveal_strlit("b");
        reveal_strlit("c");
        reveal_strlit("d");
        reveal_strlit("e");
        reveal_strlit("f");
    }
    if d == 0 {
        "0"
    } else if d == 1 {
        "1"
    } else if d == 2 {
        "2"
    } else if d == 3 {
        "3"
    } else if d == 4 {
        "4"
    } else if d == 5 {
        "5"
    } else if d == 6 {
        "6"
    } else if d == 7 {
        "7"
    } else if d == 8 {
        "8"
    } else if d == 9 {
        "9"
    } else if d == 10 {
        "a"
    } else if d == 11 {
        "b"
    } else if d == 12 {
        "c"
    } else if d == 13 {
        "d"
    } else if d == 14 {
        "e"
    } else {
        "f"
    }
}

fn push_numeral(out: &mut String, n: u128, base: u128)
    requires
        2 <= base <= 16,
    ensures
        final(out)@ == old(out)@ + numeral(n as nat, base as nat),
    decreases n,
{
    if n >= base {
        proof {
            lemma_div_decreases(n as int, base as int);
        }
        push_numeral(out, n / base, base);
    }
    let text = digit_text(n % base);
    out.append(text);
    proof {
        if n < base {
            assert(n % base == n) by (nonlinear_arith)
                requires
                    0 <= n < base,
            ;
        }
    }
}

/// `n` in decimal.
pub fn decimal_text(n: i64) -> (text: String)
    ensures
        text@ == decimal(n as int),
{
    let mut text = String::new();
    if n < 0 {
        proof {
            reveal_strlit("-");
        }
        text.append("-");
        assert(text@ =~= seq!['-']);
        let magnitude: u128 = (-(n as i128)) as u128;
        push_numeral(&mut text, magnitude, 10);
    } else {
        push_numeral(&mut text, n as u128, 10);
    }
    text
}

/// `n` in decimal.
pub fn natural_text(n: u64) -> (text: String)
    ensures
        text@ == decimal(n as int),
{
    let mut text = String::new();
    push_numeral(&mut text, n as u128, 10);
    text
}

/// `n` in hexadecimal, padded with a zero to at least two digits.
pub fn hex_padded_text(n: u128) -> (text: String)
    ensures
        text@ == hex_padded(n as nat),
{
    let mut text = String::new();
    if n < 16 {
        proof {
            reveal_strlit("0");
        }
        text.append("0");
        assert(text@ =~= seq!['0']);
    }
    push_numeral(&mut text, n, 16);
    text
}

/// A digit determines its value.
proof fn lemma_digit_injective(a: nat, b: nat)
    requires
        a < 16,
        b < 16,
        digit(a) == digit(b),
    ensures
        a == b,
{
}

/// A numeral determines its number: in one base, different numbers are written differently.
pub proof fn numeral_injective(a: nat, b: nat, base: nat)
    requires
        2 <= base <= 16,
        numeral(a, base) == numeral(b, base),
    ensures
        a == b,
    decreases a,
{
    lemma_numeral_shape(a, base);
    lemma_numeral_shape(b, base);
    let s = numeral(a, base);
    if a < base {
        assert(s.len() == 1);
        assert(b < base);
        assert(s[0] == digit(a));
        lemma_digit_injective(a, b);
    } else {
        assert(s.len() > 1);
        assert(b >= base);
        let p = numeral(a / base, base);
        let q = numeral(b / base, base);
        assert(p =~= s.drop_last());
        assert(q =~= s.drop_last());
        lemma_div_decreases(a as int, base as int);
        numeral_injective(a / base, b / base, base);
        assert(s.last() == digit(a % base));
        assert(s.last() == digit(b % base));
        assert(a % base < base && b % base < base) by (nonlinear_arith)
            requires
                base >= 2,
        ;
        lemma_digit_injective(a % base, b % base);
        lemma_fundamental_div_mod(a as int, base as int);
        lemma_fundamental_div_mod(b as int, base as int);
    }
}

/// A numeral has one digit exactly when its number is below the base, and its digits are never
/// the minus sign or a slash.
proof fn lemma_numeral_shape(n: nat, base: nat)
    requires
        2 <= base <= 16,
    ensures
        numeral(n, base).len() >= 1,
        numeral(n, base).len() == 1 <==> n < base,
        forall|i: int|
            0 <= i < numeral(n, base).len() ==> #[trigger] numeral(n, base)[i] != '-' && numeral(
                n,
                base,
            )[i] != '/',
    decreases n,
{
    if n >= base {
        lemma_div_decreases(n as int, base as int);
        lemma_numeral_shape(n / base, base);
        assert(n % base < base) by (nonlinear_arith)
            requires
                base >= 2,
        ;
    }
}

/// The decimal text of a number determines the number.
pub proof fn decimal_injective(a: int, b: int)
    requires
        decimal(a) == decimal(b),
    ensures
        a == b,
{
    let m = if a < 0 {
        (-a) as nat
    } else {
        a as nat
    };
    let n = if b < 0 {
        (-b) as nat
    } else {
        b as nat
    };
    lemma_numeral_shape(m, 10);
    lemma_numeral_shape(n, 10);
    assert(decimal(a)[0] == '-' <==> a < 0);
    assert(decimal(b)[0] == '-' <==> b < 0);
    if a < 0 {
        assert(numeral(m, 10) =~= decimal(a).drop_first());
        assert(numeral(n, 10) =~= decimal(b).drop_first());
    }
    numeral_injective(m, n, 10);
}

/// The padded hexadecimal text of a number determines the number.
pub proof fn hex_padded_injective(a: nat, b: nat)
    requires
        hex_padded(a) == hex_padded(b),
    ensures
        a == b,
{
    lemma_numeral_shape(a, 16);
    lemma_numeral_shape(b, 16);
    if a < 16 && b < 16 {
        assert(numeral(a, 16) =~= hex_padded(a).drop_first());
        assert(numeral(b, 16) =~= hex_padded(b).drop_first());
        numeral_injective(a, b, 16);
    } else if a < 16 {
        lemma_no_leading_zero(b, 16);
        assert(hex_padded(a)[0] == '0');
    } else if b < 16 {
        lemma_no_leading_zero(a, 16);
        assert(hex_padded(b)[0] == '0');
    } else {
        numeral_injective(a, b, 16);
    }
}

/// The numeral of a positive number does not start with a zero.
proof fn lemma_no_leading_zero(n: nat, base: nat)
    requires
        2 <= base <= 16,
        n > 0,
    ensures
        numeral(n, base)[0] != '0',
    decreases n,
{
    lemma_numeral_shape(n, base);
    if n >= base {
        lemma_div_decreases(n as int, base as int);
        assert(n / base > 0) by (nonlinear_arith)
            requires
                n >= base >= 2,
        ;
        lemma_no_leading_zero(n / base, base);
        lemma_numeral_shape(n / base, base);
    }
}

/// What a digit stands for.
pub open spec fn digit_value(c: char) -> int {
    if '0' <= c && c <= '9' {
        c as int - '0' as int
    } else {
        c as int - 'a' as int + 10
    }
}

/// Whether a character is a digit of a base up to sixteen, in lower case.
pub open spec fn is_digit(c: char, base: nat) -> bool {
    ('0' <= c && c <= '9' || 'a' <= c && c <= 'f') && digit_value(c) < base
}

/// The number that digits stand for when they are read in `base`.
pub open spec fn read_back(text: Seq<char>, base: nat) -> int
    decreases text.len(),
{
    if text.len() == 0 {
        0
    } else {
        read_back(text.drop_last(), base) * base + digit_value(text.last())
    }
}

/// A numeral consists of digits of its base, reads back as its number, and starts with a zero
/// for the number zero alone.
pub proof fn numeral_reads_back(n: nat, base: nat)
    requires
        2 <= base <= 16,
    ensures
        numeral(n, base).len() >= 1,
        forall|i: int| 0 <= i < numeral(n, base).len() ==> is_digit(
            #[trigger] numeral(n, base)[i],
            base,
        ),
        read_back(numeral(n, base), base) == n,
        numeral(n, base)[0] == '0' <==> n == 0,
        n == 0 ==> numeral(n, base).len() == 1,
    decreases n,
{
    lemma_numeral_shape(n, base);
    if n > 0 {
        lemma_no_leading_zero(n, base);
    }
    if n < base {
        assert(numeral(n, base).drop_last() =~= seq![]);
        assert(read_back(numeral(n, base).drop_last(), base) == 0);
        assert(0 * base == 0) by (nonlinear_arith);
    } else {
        lemma_div_decreases(n as int, base as int);
        numeral_reads_back(n / base, base);
        assert(numeral(n, base).drop_last() =~= numeral(n / base, base));
        lemma_fundamental_div_mod(n as int, base as int);
        assert(n % base < base) by (nonlinear_arith)
            requires
                base >= 2,
        ;
        assert((n / base) * base == base * (n / base)) by (nonlinear_arith);
    }
}

/// The decimal text of a number reads back as the number: in decimal digits without needless
/// zeros, after a minus sign where it is negative.
pub proof fn decimal_reads_back(n: int)
    ensures
        n >= 0 ==> read_back(decimal(n), 10) == n,
        n < 0 ==> decimal(n)[0] == '-' && read_back(decimal(n).drop_first(), 10) == -n,
        n > 0 ==> decimal(n)[0] != '0',
        n < 0 ==> decimal(n)[1] != '0',
        n == 0 ==> decimal(n) == seq!['0'],
        forall|i: int|
            (if n < 0 {
                1int
            } else {
                0
            }) <= i < decimal(n).len() ==> is_digit(#[trigger] decimal(n)[i], 10),
{
    let magnitude = if n < 0 {
        (-n) as nat
    } else {
        n as nat
    };
    numeral_reads_back(magnitude, 10);
    if n < 0 {
        assert(decimal(n).drop_first() =~= numeral(magnitude, 10));
        assert forall|i: int| 1 <= i < decimal(n).len() implies is_digit(
            #[trigger] decimal(n)[i],
            10,
        ) by {
            assert(decimal(n)[i] == numeral(magnitude, 10)[i - 1]);
        }
    }
}

/// The padded hexadecimal text of a number reads back as the number. It has at least two digits,
/// and a leading zero only where it would have one digit otherwise.
pub proof fn hex_padded_reads_back(n: nat)
    ensures
        read_back(hex_padded(n), 16) == n,
        hex_padded(n).len() >= 2,
        hex_padded(n).len() > 2 ==> hex_padded(n)[0] != '0',
        forall|i: int| 0 <= i < hex_padded(n).len() ==> is_digit(#[trigger] hex_padded(n)[i], 16),
{
    numeral_reads_back(n, 16);
    lemma_numeral_shape(n, 16);
    if n < 16 {
        let text = hex_padded(n);
        reveal_with_fuel(read_back, 3);
        assert(text.drop_last() =~= seq!['0']);
        assert(seq!['0'].drop_last() =~= seq![]);
    }
}

// ---------------------------------------------------------------------------
// Paths
// ---------------------------------------------------------------------------

/// Whether `path` starts at the root.
pub open spec fn is_absolute(path: Seq<char>) -> bool {
    path.len() > 0 && path[0] == '/'
}

/// `target` below `/usr`; an absolute `target` stands for itself.
pub open spec fn below_usr(target: Seq<char>) -> Seq<char> {
    if is_absolute(target) {
        target
    } else {
        "/usr/"@ + target
    }
}

/// `target` below `/usr`; an absolute `target` stands for itself.
pub fn below_usr_text(target: &str) -> (path: String)
    ensures
        path@ == below_usr(target@),
{
    if !target.is_empty() && target.get_char(0) == '/' {
        target.to_string()
    } else {
        let mut path = "/usr/".to_string();
        path.append(target);
        path
    }
}

/// A target that does not start at the root is found below `/usr` under its own name, letter for
/// letter; one that does stays what it is.
pub proof fn targets_are_found_below_usr(target: Seq<char>)
    ensures
        target.len() > 0 && target[0] == '/' ==> below_usr(target) == target,
        !(target.len() > 0 && target[0] == '/') ==> below_usr(target) == seq![
            '/',
            'u',
            's',
            'r',
            '/',
        ] + target,
{
    reveal_strlit("/usr/");
    assert("/usr/"@ =~= seq!['/', 'u', 's', 'r', '/']);
}

// ---------------------------------------------------------------------------
// Order of names
// ---------------------------------------------------------------------------

/// How one name stands to another.
#[derive(Clone, Copy, Debug, PartialEq, Eq, Structural)]
pub enum Rank {
    Before,
    Same,
    After,
}

/// Lexicographic order on bytes: at the first difference the smaller byte comes first, and a
/// proper prefix comes before what it is a prefix of.
pub open spec fn bytes_before(a: Seq<u8>, b: Seq<u8>) -> bool
    decreases a.len(),
{
    if b.len() == 0 {
        false
    } else if a.len() == 0 {
        true
    } else if a[0] != b[0] {
        a[0] < b[0]
    } else {
        bytes_before(a.drop_first(), b.drop_first())
    }
}

/// The order of names: that of their UTF-8 bytes.
pub open spec fn name_before(a: Seq<char>, b: Seq<char>) -> bool {
    bytes_before(encode_utf8(a), encode_utf8(b))
}

/// Where `a` stands in relation to `b`.
pub fn name_rank(a: &str, b: &str) -> (rank: Rank)
    ensures
        rank == Rank::Before <==> name_before(a@, b@),
        rank == Rank::Same <==> a@ == b@,
        rank == Rank::After <==> name_before(b@, a@),
{
    let x = a.as_bytes();
    let y = b.as_bytes();
    let mut i: usize = 0;
    assert(x@.skip(0) =~= x@);
    assert(y@.skip(0) =~= y@);
    proof {
        lemma_bytes_irreflexive(x@);
        lemma_bytes_asymmetric(x@, y@);
        encode_utf8_decode_utf8(a@);
        encode_utf8_decode_utf8(b@);
    }
    while i < x.len() && i < y.len()
        invariant
            i <= x@.len(),
            i <= y@.len(),
            x@ == encode_utf8(a@),
            y@ == encode_utf8(b@),
            x@.take(i as int) == y@.take(i as int),
            bytes_before(x@, y@) == bytes_before(x@.skip(i as int), y@.skip(i as int)),
            bytes_before(y@, x@) == bytes_before(y@.skip(i as int), x@.skip(i as int)),
            bytes_before(x@, y@) ==> !bytes_before(y@, x@),
            bytes_before(x@, y@) ==> x@ != y@,
            bytes_before(y@, x@) ==> x@ != y@,
        decreases x@.len() - i,
    {
        assert(x@.skip(i as int)[0] == x@[i as int]);
        assert(y@.skip(i as int)[0] == y@[i as int]);
        if x[i] < y[i] {
            return Rank::Before;
        }
        if y[i] < x[i] {
            return Rank::After;
        }
        assert(x@.skip(i as int).drop_first() =~= x@.skip(i + 1));
        assert(y@.skip(i as int).drop_first() =~= y@.skip(i + 1));
        assert(x@.take(i + 1) =~= x@.take(i as int).push(x@[i as int]));
        assert(y@.take(i + 1) =~= y@.take(i as int).push(y@[i as int]));
        i = i + 1;
    }
    if i < y.len() {
        Rank::Before
    } else if i < x.len() {
        Rank::After
    } else {
        assert(x@.take(i as int) =~= x@);
        assert(y@.take(i as int) =~= y@);
        assert(a@ == b@);
        Rank::Same
    }
}

proof fn lemma_bytes_irreflexive(a: Seq<u8>)
    ensures
        !bytes_before(a, a),
    decreases a.len(),
{
    if a.len() > 0 {
        lemma_bytes_irreflexive(a.drop_first());
    }
}

proof fn lemma_bytes_asymmetric(a: Seq<u8>, b: Seq<u8>)
    ensures
        bytes_before(a, b) ==> !bytes_before(b, a),
        bytes_before(a, b) || bytes_before(b, a) ==> a != b,
    decreases a.len(),
{
    lemma_bytes_irreflexive(a);
    if a.len() > 0 && b.len() > 0 && a[0] == b[0] {
        lemma_bytes_asymmetric(a.drop_first(), b.drop_first());
    }
}

proof fn lemma_bytes_transitive(a: Seq<u8>, b: Seq<u8>, c: Seq<u8>)
    requires
        bytes_before(a, b),
        bytes_before(b, c),
    ensures
        bytes_before(a, c),
    decreases a.len(),
{
    if a.len() > 0 && b.len() > 0 && c.len() > 0 && a[0] == b[0] && b[0] == c[0] {
        lemma_bytes_transitive(a.drop_first(), b.drop_first(), c.drop_first());
    }
}

proof fn lemma_bytes_total(a: Seq<u8>, b: Seq<u8>)
    requires
        a != b,
    ensures
        bytes_before(a, b) || bytes_before(b, a),
    decreases a.len(),
{
    if a.len() > 0 && b.len() > 0 && a[0] == b[0] {
        if a.drop_first() == b.drop_first() {
            assert(a =~= seq![a[0]] + a.drop_first());
            assert(b =~= seq![b[0]] + b.drop_first());
        }
        lemma_bytes_total(a.drop_first(), b.drop_first());
    } else if a.len() == 0 && b.len() == 0 {
        assert(a =~= b);
    }
}

/// Names are strictly and totally ordered.
pub proof fn name_order_is_total(a: Seq<char>, b: Seq<char>, c: Seq<char>)
    ensures
        !name_before(a, a),
        name_before(a, b) ==> !name_before(b, a),
        name_before(a, b) && name_before(b, c) ==> name_before(a, c),
        a != b ==> name_before(a, b) || name_before(b, a),
{
    let (x, y, z) = (encode_utf8(a), encode_utf8(b), encode_utf8(c));
    lemma_bytes_irreflexive(x);
    lemma_bytes_asymmetric(x, y);
    if name_before(a, b) && name_before(b, c) {
        lemma_bytes_transitive(x, y, z);
    }
    if a != b {
        encode_utf8_decode_utf8(a);
        encode_utf8_decode_utf8(b);
        lemma_bytes_total(x, y);
    }
}

/// One name comes before another exactly when it is smaller at the first byte in which their
/// encodings differ, or its encoding is a proper beginning of the other's.
pub proof fn names_are_told_by_their_first_difference(a: Seq<char>, b: Seq<char>)
    ensures
        name_before(a, b) <==> exists|k: int|
            #[trigger] differ_at(encode_utf8(a), encode_utf8(b), k),
{
    lemma_first_difference(encode_utf8(a), encode_utf8(b));
}

/// Whether `a` and `b` agree before `k`, where `a` ends or is smaller.
pub open spec fn differ_at(a: Seq<u8>, b: Seq<u8>, k: int) -> bool {
    &&& 0 <= k <= a.len()
    &&& k < b.len()
    &&& forall|j: int| 0 <= j < k ==> a[j] == b[j]
    &&& k < a.len() ==> a[k] < b[k]
}

proof fn lemma_first_difference(a: Seq<u8>, b: Seq<u8>)
    ensures
        bytes_before(a, b) <==> exists|k: int| #[trigger] differ_at(a, b, k),
    decreases a.len(),
{
    if a.len() > 0 && b.len() > 0 && a[0] == b[0] {
        let (x, y) = (a.drop_first(), b.drop_first());
        lemma_first_difference(x, y);
        if bytes_before(a, b) {
            let k = choose|k: int| #[trigger] differ_at(x, y, k);
            assert forall|j: int| 0 <= j < k + 1 implies a[j] == b[j] by {
                if j > 0 {
                    assert(x[j - 1] == y[j - 1]);
                }
            }
            if k < x.len() {
                assert(x[k] == a[k + 1] && y[k] == b[k + 1]);
            }
            assert(differ_at(a, b, k + 1));
        }
        if exists|k: int| #[trigger] differ_at(a, b, k) {
            let k = choose|k: int| #[trigger] differ_at(a, b, k);
            assert(k > 0);
            assert forall|j: int| 0 <= j < k - 1 implies x[j] == y[j] by {
                assert(a[j + 1] == b[j + 1]);
            }
            assert(differ_at(x, y, k - 1));
        }
    } else if b.len() > 0 && (a.len() == 0 || a[0] < b[0]) {
        assert(differ_at(a, b, 0));
    } else if exists|k: int| #[trigger] differ_at(a, b, k) {
        let k = choose|k: int| #[trigger] differ_at(a, b, k);
        if k > 0 {
            assert(a[0] == b[0]);
        }
    }
}

} // verus!
