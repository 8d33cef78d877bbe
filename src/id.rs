// Message identities: the fixed-width binary key that both tables are keyed by,
// ordered byte by byte as identities are ordered, and the display form.
use vstd::prelude::*;
use vstd::string::StrSliceExecFns;
use vstd::string::StringExecFns;

verus! {

/// Width in bytes of an encoded key: priority (4), timestamp (16), sequence (4).
pub const KEY_LEN: usize = 24;

/// The identity of a message: ordered by priority, then timestamp, then sequence.
#[derive(Debug, Clone, Copy, PartialEq, Eq, Structural, PartialOrd, Ord, Hash)]
pub struct Id {
    pub priority: u32,
    pub timestamp: u128,
    pub sequence: u32,
}

/// 256 to the power `w`.
pub open spec fn pow256(w: nat) -> nat
    decreases w,
{
    if w == 0 {
        1
    } else {
        256 * pow256((w - 1) as nat)
    }
}

/// The `w` low bytes of `n`, most significant first.
pub open spec fn be_bytes(n: nat, w: nat) -> Seq<u8>
    decreases w,
{
    if w == 0 {
        Seq::empty()
    } else {
        be_bytes(n / 256, (w - 1) as nat).push((n % 256) as u8)
    }
}

/// The number that `s` writes, most significant byte first.
pub open spec fn be_value(s: Seq<u8>) -> nat
    decreases s.len(),
{
    if s.len() == 0 {
        0
    } else {
        be_value(s.drop_last()) * 256 + s.last() as nat
    }
}

/// Byte-lexicographic order: `s` sorts strictly before `t`.
pub open spec fn lex_lt(s: Seq<u8>, t: Seq<u8>) -> bool
    decreases s.len(),
{
    if s.len() == 0 {
        t.len() > 0
    } else if t.len() == 0 {
        false
    } else if s[0] != t[0] {
        s[0] < t[0]
    } else {
        lex_lt(s.drop_first(), t.drop_first())
    }
}

impl Id {
    /// The total order of identities: priority, then timestamp, then sequence.
    pub open spec fn precedes(self, other: Id) -> bool {
        self.priority < other.priority || (self.priority == other.priority && (
        self.timestamp < other.timestamp || (self.timestamp == other.timestamp
            && self.sequence < other.sequence)))
    }

    /// The binary key: each field big-endian at its full width.
    pub open spec fn key(self) -> Seq<u8> {
        be_bytes(self.priority as nat, 4) + be_bytes(self.timestamp as nat, 16) + be_bytes(
            self.sequence as nat,
            4,
        )
    }
}

/// The identity whose fields a key of the fixed width writes.
pub open spec fn key_id(k: Seq<u8>) -> Id {
    Id {
        priority: be_value(k.subrange(0, 4)) as u32,
        timestamp: be_value(k.subrange(4, 20)) as u128,
        sequence: be_value(k.subrange(20, 24)) as u32,
    }
}

/// The two widths that keys use, as numbers.
pub proof fn lemma_pow256_values()
    ensures
        pow256(4) == 0x1_0000_0000,
        pow256(16) == 0x1_0000_0000_0000_0000_0000_0000_0000_0000,
{
    reveal_with_fuel(pow256, 17);
}

/// Powers of 256 grow with the exponent.
pub proof fn lemma_pow256_mono(k: nat, w: nat)
    requires
        k <= w,
    ensures
        pow256(k) <= pow256(w),
        pow256(k) >= 1,
    decreases w,
{
    if w > k {
        lemma_pow256_mono(k, (w - 1) as nat);
    } else if k > 0 {
        lemma_pow256_mono((k - 1) as nat, (k - 1) as nat);
    }
}

proof fn lemma_div_mod_256(n: nat, w: nat)
    requires
        w > 0,
        n < pow256(w),
    ensures
        n / 256 < pow256((w - 1) as nat),
        n == (n / 256) * 256 + n % 256,
        n % 256 < 256,
{
    let p = pow256((w - 1) as nat);
    assert(n / 256 < p) by (nonlinear_arith)
        requires
            n < 256 * p,
    ;
}

/// Reading back the bytes of `n` gives `n`.
pub proof fn lemma_be_value_bytes(n: nat, w: nat)
    requires
        n < pow256(w),
    ensures
        be_bytes(n, w).len() == w,
        be_value(be_bytes(n, w)) == n,
    decreases w,
{
    if w > 0 {
        lemma_div_mod_256(n, w);
        lemma_be_value_bytes(n / 256, (w - 1) as nat);
        assert(be_bytes(n, w).drop_last() =~= be_bytes(n / 256, (w - 1) as nat));
    }
}

/// Every byte string is the encoding of its value, at its own length.
pub proof fn lemma_be_bytes_value(s: Seq<u8>)
    ensures
        be_value(s) < pow256(s.len()),
        be_bytes(be_value(s), s.len()) =~= s,
    decreases s.len(),
{
    if s.len() > 0 {
        let t = s.drop_last();
        let v = be_value(t);
        let l = s.last() as nat;
        lemma_be_bytes_value(t);
        let p = pow256(t.len());
        assert(v * 256 + l < 256 * p) by (nonlinear_arith)
            requires
                v < p,
                l < 256,
        ;
        assert((v * 256 + l) / 256 == v && (v * 256 + l) % 256 == l) by (nonlinear_arith)
            requires
                l < 256,
        ;
        assert(s =~= t.push(s.last()));
    }
}

/// Comparing two concatenations whose first parts have one length.
pub proof fn lemma_lex_concat(a: Seq<u8>, b: Seq<u8>, c: Seq<u8>, d: Seq<u8>)
    requires
        a.len() == c.len(),
    ensures
        lex_lt(a + b, c + d) == (lex_lt(a, c) || (a == c && lex_lt(b, d))),
    decreases a.len(),
{
    if a.len() == 0 {
        assert(a + b =~= b);
        assert(c + d =~= d);
        assert(a =~= c);
    } else {
        assert((a + b)[0] == a[0]);
        assert((c + d)[0] == c[0]);
        assert((a + b).drop_first() =~= a.drop_first() + b);
        assert((c + d).drop_first() =~= c.drop_first() + d);
        lemma_lex_concat(a.drop_first(), b, c.drop_first(), d);
        if a[0] == c[0] {
            if a.drop_first() == c.drop_first() {
                assert forall|i: int| 0 <= i < a.len() implies a[i] == c[i] by {
                    if i > 0 {
                        assert(a[i] == a.drop_first()[i - 1]);
                        assert(c[i] == c.drop_first()[i - 1]);
                    }
                }
                assert(a =~= c);
            }
        }
        if a == c {
            assert(a.drop_first() =~= c.drop_first());
        }
    }
}

/// On one width, the byte order of encodings is the order of the numbers.
pub proof fn lemma_be_order(n: nat, m: nat, w: nat)
    requires
        n < pow256(w),
        m < pow256(w),
    ensures
        lex_lt(be_bytes(n, w), be_bytes(m, w)) == (n < m),
        (be_bytes(n, w) == be_bytes(m, w)) == (n == m),
    decreases w,
{
    lemma_be_value_bytes(n, w);
    lemma_be_value_bytes(m, w);
    if w > 0 {
        let w1 = (w - 1) as nat;
        lemma_div_mod_256(n, w);
        lemma_div_mod_256(m, w);
        lemma_be_order(n / 256, m / 256, w1);
        let x = be_bytes(n / 256, w1);
        let y = be_bytes(m / 256, w1);
        let u = seq![(n % 256) as u8];
        let v = seq![(m % 256) as u8];
        assert(be_bytes(n, w) =~= x + u);
        assert(be_bytes(m, w) =~= y + v);
        lemma_lex_concat(x, u, y, v);
        assert(u.drop_first().len() == 0);
        assert(v.drop_first().len() == 0);
        assert(u[0] as nat == n % 256);
        assert(v[0] as nat == m % 256);
        assert(!lex_lt(u.drop_first(), v.drop_first()));
        assert(lex_lt(u, v) == (n % 256 < m % 256));
        let (qn, rn, qm, rm) = (n / 256, n % 256, m / 256, m % 256);
        assert((n < m) == (qn < qm || (qn == qm && rn < rm))) by (nonlinear_arith)
            requires
                n == qn * 256 + rn,
                m == qm * 256 + rm,
                rn < 256,
                rm < 256,
        ;
    }
}

/// Distinct identities have distinct keys, and the key has the fixed width.
pub proof fn lemma_key_injective(a: Id, b: Id)
    ensures
        a.key().len() == KEY_LEN,
        (a.key() == b.key()) == (a == b),
{
    lemma_pow256_values();
    lemma_key_parts(a);
    lemma_key_parts(b);
    lemma_be_order(a.priority as nat, b.priority as nat, 4);
    lemma_be_order(a.timestamp as nat, b.timestamp as nat, 16);
    lemma_be_order(a.sequence as nat, b.sequence as nat, 4);
    if a.key() == b.key() {
        assert(a.key().subrange(0, 4) =~= be_bytes(a.priority as nat, 4));
        assert(b.key().subrange(0, 4) =~= be_bytes(b.priority as nat, 4));
        assert(a.key().subrange(4, 20) =~= be_bytes(a.timestamp as nat, 16));
        assert(b.key().subrange(4, 20) =~= be_bytes(b.timestamp as nat, 16));
        assert(a.key().subrange(20, 24) =~= be_bytes(a.sequence as nat, 4));
        assert(b.key().subrange(20, 24) =~= be_bytes(b.sequence as nat, 4));
    }
}

proof fn lemma_key_parts(a: Id)
    ensures
        be_bytes(a.priority as nat, 4).len() == 4,
        be_bytes(a.timestamp as nat, 16).len() == 16,
        be_bytes(a.sequence as nat, 4).len() == 4,
        a.key().len() == KEY_LEN,
{
    lemma_pow256_values();
    lemma_be_value_bytes(a.priority as nat, 4);
    lemma_be_value_bytes(a.timestamp as nat, 16);
    lemma_be_value_bytes(a.sequence as nat, 4);
}

/// Key order is identity order: `a` precedes `b` exactly when the key of `a`
/// sorts before the key of `b` byte by byte.
pub proof fn lemma_key_order(a: Id, b: Id)
    ensures
        a.precedes(b) == lex_lt(a.key(), b.key()),
{
    lemma_pow256_values();
    lemma_key_parts(a);
    lemma_key_parts(b);
    let (pa, ta, sa) = (
        be_bytes(a.priority as nat, 4),
        be_bytes(a.timestamp as nat, 16),
        be_bytes(a.sequence as nat, 4),
    );
    let (pb, tb, sb) = (
        be_bytes(b.priority as nat, 4),
        be_bytes(b.timestamp as nat, 16),
        be_bytes(b.sequence as nat, 4),
    );
    lemma_be_order(a.priority as nat, b.priority as nat, 4);
    lemma_be_order(a.timestamp as nat, b.timestamp as nat, 16);
    lemma_be_order(a.sequence as nat, b.sequence as nat, 4);
    lemma_lex_concat(pa + ta, sa, pb + tb, sb);
    lemma_lex_concat(pa, ta, pb, tb);
    if pa + ta == pb + tb {
        assert((pa + ta).subrange(0, 4) =~= pa);
        assert((pb + tb).subrange(0, 4) =~= pb);
        assert((pa + ta).subrange(4, 20) =~= ta);
        assert((pb + tb).subrange(4, 20) =~= tb);
    }
}

/// Appends the `w` low bytes of `n` to `out`, most significant first.
fn push_be(out: &mut Vec<u8>, n: u128, w: usize)
    ensures
        final(out)@ == old(out)@ + be_bytes(n as nat, w as nat),
    decreases w,
{
    if w > 0 {
        push_be(out, n / 256, w - 1);
        out.push((n % 256) as u8);
        assert(out@ =~= old(out)@ + be_bytes(n as nat, w as nat));
    } else {
        assert(out@ =~= old(out)@ + be_bytes(n as nat, w as nat));
    }
}

/// The number written big-endian in `b[start..start + w]`.
fn read_be(b: &[u8], start: usize, w: usize) -> (v: u128)
    requires
        start + w <= b@.len(),
        start + w <= usize::MAX,
        w <= 16,
    ensures
        v as nat == be_value(b@.subrange(start as int, start + w)),
{
    let end: usize = start + w;
    let mut acc: u128 = 0;
    let mut i: usize = start;
    proof {
        lemma_pow256_values();
        assert(b@.subrange(start as int, start as int).len() == 0);
    }
    while i < end
        invariant
            end == start + w,
            start <= i <= start + w,
            start + w <= b@.len(),
            w <= 16,
            pow256(16) == 0x1_0000_0000_0000_0000_0000_0000_0000_0000,
            acc as nat == be_value(b@.subrange(start as int, i as int)),
            acc < pow256((i - start) as nat),
        decreases start + w - i,
    {
        proof {
            let k = (i - start) as nat;
            lemma_pow256_mono(k + 1, 16);
            let p = pow256(k);
            let a = acc as nat;
            let x = b@[i as int] as nat;
            assert(a * 256 + x < 256 * p) by (nonlinear_arith)
                requires
                    a < p,
                    x < 256,
            ;
            assert(b@.subrange(start as int, i + 1).drop_last() =~= b@.subrange(
                start as int,
                i as int,
            ));
        }
        acc = acc * 256 + b[i] as u128;
        i = i + 1;
    }
    acc
}

/// Why a byte string is not a key.
#[derive(Debug, Clone, Copy, PartialEq, Eq, Structural)]
pub enum DecodeError {
    /// The byte string does not have the width of a key.
    WrongLength,
}

impl Id {
    /// The binary key of this identity.
    pub fn encode(&self) -> (r: Vec<u8>)
        ensures
            r@ == self.key(),
    {
        let mut out: Vec<u8> = Vec::new();
        push_be(&mut out, self.priority as u128, 4);
        push_be(&mut out, self.timestamp, 16);
        push_be(&mut out, self.sequence as u128, 4);
        assert(out@ =~= self.key());
        out
    }

    /// The identity whose key is `b`; fails exactly when `b` is not as wide as a key.
    pub fn decode(b: &[u8]) -> (r: Result<Id, DecodeError>)
        ensures
            match r {
                Ok(id) => b@.len() == KEY_LEN && id.key() == b@ && id == key_id(b@),
                Err(e) => b@.len() != KEY_LEN && e == DecodeError::WrongLength,
            },
    {
        if b.len() != KEY_LEN {
            return Err(DecodeError::WrongLength);
        }
        let p = read_be(b, 0, 4);
        let t = read_be(b, 4, 16);
        let s = read_be(b, 20, 4);
        proof {
            lemma_pow256_values();
            lemma_be_bytes_value(b@.subrange(0, 4));
            lemma_be_bytes_value(b@.subrange(4, 20));
            lemma_be_bytes_value(b@.subrange(20, 24));
        }
        let id = Id { priority: p as u32, timestamp: t, sequence: s as u32 };
        assert(id.key() =~= b@);
        Ok(id)
    }
}

/// Round trip: decoding the key of an identity gives the identity back; the key
/// has the width that decoding accepts.
pub proof fn lemma_round_trip(id: Id)
    ensures
        key_id(id.key()) == id,
        id.key().len() == KEY_LEN,
{
    lemma_key_parts(id);
    let k = id.key();
    assert(k.subrange(0, 4) =~= be_bytes(id.priority as nat, 4));
    assert(k.subrange(4, 20) =~= be_bytes(id.timestamp as nat, 16));
    assert(k.subrange(20, 24) =~= be_bytes(id.sequence as nat, 4));
    lemma_pow256_values();
    lemma_be_value_bytes(id.priority as nat, 4);
    lemma_be_value_bytes(id.timestamp as nat, 16);
    lemma_be_value_bytes(id.sequence as nat, 4);
}

/// The decimal digit character for `d`.
pub open spec fn digit_char(d: nat) -> char {
    if d == 0 {
        '0'
    } else if d == 1 {
        '1'
    } else if d == 2 {
        '2'
    } else if d == 3 {
        '3'
    } else if d == 4 {
        '4'
    } else if d == 5 {
        '5'
    } else if d == 6 {
        '6'
    } else if d == 7 {
        '7'
    } else if d == 8 {
        '8'
    } else {
        '9'
    }
}

/// `n` in decimal, without leading zeros.
pub open spec fn decimal(n: nat) -> Seq<char>
    decreases n,
{
    if n < 10 {
        seq![digit_char(n)]
    } else {
        decimal(n / 10).push(digit_char(n % 10))
    }
}

impl Id {
    /// The display form `priority-timestamp-sequence`, each in decimal.
    pub open spec fn display(self) -> Seq<char> {
        decimal(self.priority as nat) + seq!['-'] + decimal(self.timestamp as nat) + seq!['-']
            + decimal(self.sequence as nat)
    }
}

fn digit_str(d: u128) -> (r: &'static str)
    requires
        d < 10,
    ensures
        r@ == seq![digit_char(d as nat)],
{
    proof {
        reveal_strlit("0");
        reveal_strlit("1");
        reveal_strlit("2");
        reveal_strlit("3");
        reveal_strlit("4");
        reveal_strlit("5");
        reveal_strlit("6");
        reveal_strlit("7");
        reveal_strlit("8");
        reveal_strlit("9");
    }
    if d == 0 {
        "0"
    } else if d == 1 {
        "1"
    } else if d == 2 {
        "2"
    } else if d == 3 {
        "3"
    } else if d == 4 {
        "4"
    } else if d == 5 {
        "5"
    } else if d == 6 {
        "6"
    } else if d == 7 {
        "7"
    } else if d == 8 {
        "8"
    } else {
        "9"
    }
}

/// Appends `n` in decimal to `s`.
fn push_decimal(s: &mut String, n: u128)
    ensures
        final(s)@ == old(s)@ + decimal(n as nat),
    decreases n,
{
    if n >= 10 {
        push_decimal(s, n / 10);
    }
    s.append(digit_str(n % 10));
    assert(s@ =~= old(s)@ + decimal(n as nat));
}

impl Id {
    /// The display form `priority-timestamp-sequence`, for logs and diagnostics.
    pub fn to_string(&self) -> (r: String)
        ensures
            r@ == self.display(),
    {
        let mut s = String::new();
        push_decimal(&mut s, self.priority as u128);
        proof {
            reveal_strlit("-");
        }
        s.append("-");
        push_decimal(&mut s, self.timestamp);
        s.append("-");
        push_decimal(&mut s, self.sequence as u128);
        assert(s@ =~= self.display());
        s
    }
}

/// `c` is one of `0` to `9`.
pub open spec fn is_digit(c: char) -> bool {
    48 <= c as u32 <= 57
}

/// The number that a string of decimal digits writes.
pub open spec fn digits_value(t: Seq<char>) -> nat
    decreases t.len(),
{
    if t.len() == 0 {
        0
    } else {
        digits_value(t.drop_last()) * 10 + (t.last() as u32 - 48) as nat
    }
}

/// The value of a field: one or more decimal digits writing a number at most `max`.
pub open spec fn field_value(t: Seq<char>, max: nat) -> Option<nat> {
    if t.len() > 0 && (forall|i: int| 0 <= i < t.len() ==> is_digit(#[trigger] t[i]))
        && digits_value(t) <= max {
        Some(digits_value(t))
    } else {
        None
    }
}

/// The pieces of `s` between dashes, in order; `s` without a dash is one piece.
pub open spec fn fields(s: Seq<char>) -> Seq<Seq<char>>
    decreases s.len(),
{
    if s.len() == 0 {
        seq![Seq::empty()]
    } else {
        let f = fields(s.drop_last());
        if s.last() == '-' {
            f.push(Seq::empty())
        } else {
            f.update(f.len() - 1, f.last().push(s.last()))
        }
    }
}

/// Why a string is not the display form of an identity.
#[derive(Debug, Clone, Copy, PartialEq, Eq, Structural)]
pub enum ParseError {
    /// The string does not have exactly three dash-separated fields.
    WrongFieldCount,
    /// The priority is not a decimal number that fits in 32 bits.
    InvalidPriority,
    /// The timestamp is not a decimal number that fits in 128 bits.
    InvalidTimestamp,
    /// The sequence is not a decimal number that fits in 32 bits.
    InvalidSequence,
}

/// What parsing a display form gives: the first field that fails decides the error.
pub open spec fn parse_display(s: Seq<char>) -> Result<Id, ParseError> {
    let f = fields(s);
    if f.len() != 3 {
        Err(ParseError::WrongFieldCount)
    } else if field_value(f[0], u32::MAX as nat) is None {
        Err(ParseError::InvalidPriority)
    } else if field_value(f[1], u128::MAX as nat) is None {
        Err(ParseError::InvalidTimestamp)
    } else if field_value(f[2], u32::MAX as nat) is None {
        Err(ParseError::InvalidSequence)
    } else {
        Ok(
            Id {
                priority: field_value(f[0], u32::MAX as nat)->0 as u32,
                timestamp: field_value(f[1], u128::MAX as nat)->0 as u128,
                sequence: field_value(f[2], u32::MAX as nat)->0 as u32,
            },
        )
    }
}

proof fn lemma_fields_nonempty(s: Seq<char>)
    ensures
        fields(s).len() >= 1,
    decreases s.len(),
{
    if s.len() > 0 {
        lemma_fields_nonempty(s.drop_last());
    }
}

/// A string of digits writes at least what any of its prefixes writes.
proof fn lemma_digits_value_prefix(t: Seq<char>, k: int)
    requires
        0 <= k <= t.len(),
        forall|i: int| 0 <= i < t.len() ==> is_digit(#[trigger] t[i]),
    ensures
        digits_value(t.take(k)) <= digits_value(t),
    decreases t.len(),
{
    if k < t.len() {
        let u = t.drop_last();
        assert forall|i: int| 0 <= i < u.len() implies is_digit(#[trigger] u[i]) by {
            assert(u[i] == t[i]);
        }
        lemma_digits_value_prefix(u, k);
        assert(u.take(k) =~= t.take(k));
    } else {
        assert(t.take(k) =~= t);
    }
}

/// The value of a field of digits, if it is one and is at most `max`.
fn parse_field(t: &Vec<char>, max: u128) -> (r: Option<u128>)
    ensures
        match r {
            Some(v) => field_value(t@, max as nat) == Some(v as nat),
            None => field_value(t@, max as nat) is None,
        },
{
    if t.len() == 0 {
        return None;
    }
    let mut acc: u128 = 0;
    let mut j: usize = 0;
    assert(t@.take(0) =~= Seq::<char>::empty());
    while j < t.len()
        invariant
            j <= t@.len(),
            forall|i: int| 0 <= i < j ==> is_digit(#[trigger] t@[i]),
            acc as nat == digits_value(t@.take(j as int)),
            acc <= max,
        decreases t.len() - j,
    {
        let c = t[j];
        if !((c as u32) >= 48 && (c as u32) <= 57) {
            assert(!is_digit(t@[j as int]));
            return None;
        }
        let d = (c as u32 - 48) as u128;
        assert(t@.take(j + 1).drop_last() =~= t@.take(j as int));
        if d > max || acc > (max - d) / 10 {
            proof {
                let a = acc as nat;
                let m = max as nat;
                let dd = d as nat;
                assert(a * 10 + dd > m) by (nonlinear_arith)
                    requires
                        dd > m || a > (m - dd) / 10,
                ;
                if forall|i: int| 0 <= i < t@.len() ==> is_digit(#[trigger] t@[i]) {
                    lemma_digits_value_prefix(t@, j + 1);
                }
            }
            return None;
        }
        proof {
            let a = acc as nat;
            let m = max as nat;
            let dd = d as nat;
            assert(a * 10 + dd <= m) by (nonlinear_arith)
                requires
                    dd <= m,
                    a <= (m - dd) / 10,
            ;
        }
        acc = acc * 10 + d;
        j = j + 1;
    }
    assert(t@.take(t@.len() as int) =~= t@);
    Some(acc)
}

impl Id {
    /// Parses the display form `priority-timestamp-sequence`: exactly three
    /// dash-separated fields, each one or more decimal digits that fit the field.
    pub fn from_string(id: &str) -> (r: Result<Id, ParseError>)
        ensures
            r == parse_display(id@),
    {
        let n = id.unicode_len();
        let mut pieces: Vec<Vec<char>> = Vec::new();
        pieces.push(Vec::new());
        let mut i: usize = 0;
        proof {
            assert(id@.take(0) =~= Seq::<char>::empty());
            assert(pieces@.map_values(|v: Vec<char>| v@) =~= fields(id@.take(0)));
        }
        while i < n
            invariant
                n == id@.len(),
                i <= n,
                pieces@.len() >= 1,
                pieces@.map_values(|v: Vec<char>| v@) == fields(id@.take(i as int)),
            decreases n - i,
        {
            let c = id.get_char(i);
            let ghost before = pieces@.map_values(|v: Vec<char>| v@);
            proof {
                assert(id@.take(i + 1).drop_last() =~= id@.take(i as int));
                assert(id@.take(i + 1).last() == c);
                lemma_fields_nonempty(id@.take(i as int));
            }
            if c == '-' {
                pieces.push(Vec::new());
                assert(pieces@.map_values(|v: Vec<char>| v@) =~= before.push(Seq::empty()));
            } else {
                let last = pieces.len() - 1;
                let mut cur = pieces[last].clone();
                cur.push(c);
                pieces.set(last, cur);
                assert(pieces@.map_values(|v: Vec<char>| v@) =~= before.update(
                    last as int,
                    before.last().push(c),
                ));
            }
            i = i + 1;
        }
        assert(id@.take(n as int) =~= id@);
        if pieces.len() != 3 {
            return Err(ParseError::WrongFieldCount);
        }
        assert(pieces@[0]@ == fields(id@)[0]);
        assert(pieces@[1]@ == fields(id@)[1]);
        assert(pieces@[2]@ == fields(id@)[2]);
        let priority = match parse_field(&pieces[0], 0xffff_ffff) {
            Some(v) => v,
            None => return Err(ParseError::InvalidPriority),
        };
        let timestamp = match parse_field(&pieces[1], u128::MAX) {
            Some(v) => v,
            None => return Err(ParseError::InvalidTimestamp),
        };
        let sequence = match parse_field(&pieces[2], 0xffff_ffff) {
            Some(v) => v,
            None => return Err(ParseError::InvalidSequence),
        };
        Ok(Id { priority: priority as u32, timestamp, sequence: sequence as u32 })
    }
}

/// The decimal form of `n` is a non-empty string of digits writing `n`.
proof fn lemma_decimal(n: nat)
    ensures
        decimal(n).len() > 0,
        forall|i: int| 0 <= i < decimal(n).len() ==> is_digit(#[trigger] decimal(n)[i]),
        digits_value(decimal(n)) == n,
    decreases n,
{
    if n < 10 {
        assert(digit_char(n) as u32 == 48 + n);
        assert(decimal(n).drop_last() =~= Seq::<char>::empty());
        assert(digits_value(Seq::<char>::empty()) == 0);
        assert(decimal(n).last() == digit_char(n));
    } else {
        lemma_decimal(n / 10);
        let d = decimal(n);
        assert(d.drop_last() =~= decimal(n / 10));
        assert(digit_char(n % 10) as u32 == 48 + n % 10);
        assert(d.last() == digit_char(n % 10));
        assert(n == (n / 10) * 10 + n % 10);
        assert forall|i: int| 0 <= i < d.len() implies is_digit(#[trigger] d[i]) by {
            if i < d.len() - 1 {
                assert(d[i] == decimal(n / 10)[i]);
            }
        }
    }
}

/// Splitting at a dash: the fields of `s-t` are those of `s`, then those of `t`.
proof fn lemma_fields_dash(s: Seq<char>, t: Seq<char>)
    ensures
        fields(s + seq!['-'] + t) == fields(s) + fields(t),
    decreases t.len(),
{
    let u = s + seq!['-'] + t;
    lemma_fields_nonempty(s);
    if t.len() == 0 {
        assert(u =~= s.push('-'));
        assert(u.drop_last() =~= s);
        assert(fields(u) =~= fields(s) + fields(t));
    } else {
        lemma_fields_dash(s, t.drop_last());
        lemma_fields_nonempty(t.drop_last());
        assert(u.drop_last() =~= s + seq!['-'] + t.drop_last());
        assert(u.last() == t.last());
        assert(fields(u) =~= fields(s) + fields(t));
    }
}

/// A string with no dash is a single field.
proof fn lemma_fields_digits(t: Seq<char>)
    requires
        forall|i: int| 0 <= i < t.len() ==> is_digit(#[trigger] t[i]),
    ensures
        fields(t) == seq![t],
    decreases t.len(),
{
    if t.len() == 0 {
        assert(t =~= Seq::<char>::empty());
        assert(fields(t) =~= seq![t]);
    } else {
        let u = t.drop_last();
        assert forall|i: int| 0 <= i < u.len() implies is_digit(#[trigger] u[i]) by {
            assert(u[i] == t[i]);
        }
        lemma_fields_digits(u);
        assert(is_digit(t[t.len() - 1]));
        assert('-' as u32 == 45);
        assert(t.last() != '-');
        assert(u.push(t.last()) =~= t);
        assert(fields(t) =~= seq![t]);
    }
}

/// Parsing the display form of an identity gives the identity back.
pub proof fn lemma_display_round_trip(id: Id)
    ensures
        parse_display(id.display()) == Ok::<Id, ParseError>(id),
{
    let (p, t, s) = (
        decimal(id.priority as nat),
        decimal(id.timestamp as nat),
        decimal(id.sequence as nat),
    );
    lemma_decimal(id.priority as nat);
    lemma_decimal(id.timestamp as nat);
    lemma_decimal(id.sequence as nat);
    lemma_fields_digits(p);
    lemma_fields_digits(t);
    lemma_fields_digits(s);
    lemma_fields_dash(p, t);
    lemma_fields_dash(p + seq!['-'] + t, s);
    assert(id.display() == p + seq!['-'] + t + seq!['-'] + s);
    let f = fields(id.display());
    assert(f =~= seq![p, t, s]);
}

} // verus!
