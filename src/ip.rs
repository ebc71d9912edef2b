use vstd::prelude::*;
use vstd::string::*;
use crate::text::push_char;

verus! {

/// Whether `c` is an ASCII decimal digit.
pub open spec fn is_digit(c: char) -> bool {
    '0' <= c && c <= '9'
}

/// The ASCII character of the decimal digit `d`.
pub open spec fn digit_char(d: nat) -> char {
    ((d + 48) as u8) as char
}

/// The canonical decimal text of `n < 1000`: no leading zeros.
pub open spec fn decimal(n: nat) -> Seq<char> {
    if n < 10 {
        seq![digit_char(n)]
    } else if n < 100 {
        seq![digit_char(n / 10), digit_char(n % 10)]
    } else {
        seq![digit_char(n / 100), digit_char((n / 10) % 10), digit_char(n % 10)]
    }
}

fn digit(d: u8) -> (c: char)
    requires
        d < 10,
    ensures
        c == digit_char(d as nat),
        is_digit(c),
{
    (d + 48) as char
}

/// The canonical decimal text of a byte is one to three characters long.
pub proof fn lemma_decimal_len(n: nat)
    requires
        n < 256,
    ensures
        1 <= decimal(n).len() <= 3,
{
}

pub(crate) proof fn lemma_decimal_digits(n: nat)
    requires
        n < 1000,
    ensures
        1 <= decimal(n).len() <= 3,
        forall|i: int| 0 <= i < decimal(n).len() ==> is_digit(#[trigger] decimal(n)[i]),
{
}

/// The value of the decimal digit character `c`.
pub open spec fn digit_value(c: char) -> nat {
    (c as u32 - 48) as nat
}

/// The value of a run of decimal digits, most significant first.
pub open spec fn run_value(s: Seq<char>) -> nat
    decreases s.len(),
{
    if s.len() == 0 {
        0
    } else {
        run_value(s.drop_last()) * 10 + digit_value(s.last())
    }
}

proof fn lemma_run_value_decimal(n: nat)
    requires
        n < 1000,
    ensures
        run_value(decimal(n)) == n,
{
    let d = decimal(n);
    lemma_digit_value(n % 10);
    if n < 10 {
        assert(d.drop_last() =~= Seq::<char>::empty());
        assert(run_value(d) == run_value(d.drop_last()) * 10 + digit_value(d.last()));
    } else if n < 100 {
        lemma_digit_value(n / 10);
        let d1 = d.drop_last();
        assert(d1 =~= seq![digit_char(n / 10)]);
        assert(d1.drop_last() =~= Seq::<char>::empty());
        assert(run_value(d1) == run_value(d1.drop_last()) * 10 + digit_value(d1.last()));
        assert(run_value(d) == run_value(d1) * 10 + digit_value(d.last()));
    } else {
        lemma_digit_value(n / 100);
        lemma_digit_value((n / 10) % 10);
        let d1 = d.drop_last();
        let d2 = d1.drop_last();
        assert(d1 =~= seq![digit_char(n / 100), digit_char((n / 10) % 10)]);
        assert(d2 =~= seq![digit_char(n / 100)]);
        assert(d2.drop_last() =~= Seq::<char>::empty());
        assert(run_value(d2) == run_value(d2.drop_last()) * 10 + digit_value(d2.last()));
        assert(run_value(d1) == run_value(d2) * 10 + digit_value(d1.last()));
        assert(run_value(d) == run_value(d1) * 10 + digit_value(d.last()));
    }
}

proof fn lemma_digit_value(d: nat)
    requires
        d < 10,
    ensures
        digit_value(digit_char(d)) == d,
        is_digit(digit_char(d)),
{
}

/// Whether the canonical text of octet `v` stands in `s` at `pos`, with no
/// further digit after it.
pub open spec fn octet_at(s: Seq<char>, pos: int, v: u8) -> bool {
    let m = decimal(v as nat).len() as int;
    &&& 0 <= pos
    &&& pos + m <= s.len()
    &&& s.subrange(pos, pos + m) == decimal(v as nat)
    &&& (pos + m == s.len() || !is_digit(s[pos + m]))
}

/// Reads the run of digits at `pos` as an octet value; the result is the
/// octet whose canonical text stands there, whenever one does.
fn read_octet(s: &str, len: usize, pos: usize) -> (r: Option<(u8, usize)>)
    requires
        len == s@.len(),
        pos <= len,
    ensures
        r matches Some((v, e)) ==> pos < e <= len,
        forall|v: u8|
            octet_at(s@, pos as int, v) ==> r == Some(
                (v, (pos + decimal(v as nat).len()) as usize),
            ),
{
    let mut k: usize = 0;
    let mut val: u32 = 0;
    let mut stopped = false;
    while k < 3 && pos + k < len && !stopped
        invariant
            k <= 3,
            pos + k <= len,
            len == s@.len(),
            val == run_value(s@.subrange(pos as int, pos + k)),
            val < 1000,
            k == 0 ==> val == 0,
            k <= 1 ==> val < 10,
            k <= 2 ==> val < 100,
            forall|i: int| pos <= i < pos + k ==> is_digit(#[trigger] s@[i]),
            stopped ==> pos + k < len && !is_digit(s@[pos + k]),
        decreases 3 - k + (if stopped { 0int } else { 1int }),
    {
        let c = s.get_char(pos + k);
        if '0' <= c && c <= '9' {
            proof {
                let sub = s@.subrange(pos as int, pos + k + 1);
                assert(sub.drop_last() =~= s@.subrange(pos as int, pos + k));
            }
            val = val * 10 + (c as u32 - 48);
            k = k + 1;
        } else {
            stopped = true;
        }
    }
    proof {
        assert forall|v: u8| octet_at(s@, pos as int, v) implies k == decimal(v as nat).len()
            && val == v by {
            let m = decimal(v as nat).len() as int;
            lemma_decimal_digits(v as nat);
            lemma_run_value_decimal(v as nat);
            assert forall|i: int| pos <= i < pos + m implies is_digit(#[trigger] s@[i]) by {
                assert(s@[i] == s@.subrange(pos as int, pos + m)[i - pos]);
            }
            if k < m {
                assert(is_digit(s@[pos + k]));
            }
            if k > m {
                assert(is_digit(s@[pos + m]));
            }
            assert(k == m);
        }
    }
    if k == 0 || val > 255 {
        return None;
    }
    if pos + k < len {
        let c = s.get_char(pos + k);
        if '0' <= c && c <= '9' {
            return None;
        }
    }
    Some((val as u8, pos + k))
}

/// An IPv4 address, as its four octets from the most significant one.
#[derive(Clone, Copy, Debug, PartialEq, Eq, Structural)]
pub struct Ipv4Address {
    pub a: u8,
    pub b: u8,
    pub c: u8,
    pub d: u8,
}

impl Ipv4Address {
    /// The dotted-decimal text of the address, each octet without leading
    /// zeros.
    pub open spec fn text(self) -> Seq<char> {
        decimal(self.a as nat) + seq!['.'] + decimal(self.b as nat) + seq!['.'] + decimal(
            self.c as nat,
        ) + seq!['.'] + decimal(self.d as nat)
    }

    /// Formats the address in dotted-decimal notation.
    pub fn to_text(&self) -> (r: String)
        ensures
            r@ == self.text(),
    {
        let mut s = String::new();
        push_decimal(&mut s, self.a);
        push_char(&mut s, '.');
        push_decimal(&mut s, self.b);
        push_char(&mut s, '.');
        push_decimal(&mut s, self.c);
        push_char(&mut s, '.');
        push_decimal(&mut s, self.d);
        proof {
            assert(s@ =~= self.text());
        }
        s
    }

    /// Parses dotted-decimal text: four octets from 0 to 255 separated by
    /// dots, without leading zeros and with nothing around them.
    pub fn parse(s: &str) -> (r: Option<Ipv4Address>)
        ensures
            r matches Some(ip) ==> ip.text() == s@,
            r is None ==> forall|ip: Ipv4Address| ip.text() != s@,
    {
        let len = s.unicode_len();
        proof {
            assert forall|ip: Ipv4Address| ip.text() == s@ implies text_layout(ip, s@) by {
                lemma_text_layout(ip, s@);
            }
        }
        let (a, e1) = match read_octet(s, len, 0) {
            Some(x) => x,
            None => return None,
        };
        if e1 >= len || s.get_char(e1) != '.' {
            return None;
        }
        let (b, e2) = match read_octet(s, len, e1 + 1) {
            Some(x) => x,
            None => return None,
        };
        if e2 >= len || s.get_char(e2) != '.' {
            return None;
        }
        let (c, e3) = match read_octet(s, len, e2 + 1) {
            Some(x) => x,
            None => return None,
        };
        if e3 >= len || s.get_char(e3) != '.' {
            return None;
        }
        let (d, e4) = match read_octet(s, len, e3 + 1) {
            Some(x) => x,
            None => return None,
        };
        let ip = Ipv4Address { a, b, c, d };
        let t = ip.to_text();
        let o = s.to_owned();
        if t == o {
            Some(ip)
        } else {
            None
        }
    }
}

/// Where the parts of an address's text stand in `s`.
pub open spec fn text_layout(ip: Ipv4Address, s: Seq<char>) -> bool {
    let la = decimal(ip.a as nat).len() as int;
    let lb = decimal(ip.b as nat).len() as int;
    let lc = decimal(ip.c as nat).len() as int;
    &&& octet_at(s, 0, ip.a)
    &&& s[la] == '.'
    &&& octet_at(s, la + 1, ip.b)
    &&& s[la + 1 + lb] == '.'
    &&& octet_at(s, la + lb + 2, ip.c)
    &&& s[la + lb + lc + 2] == '.'
    &&& octet_at(s, la + lb + lc + 3, ip.d)
}

proof fn lemma_text_layout(ip: Ipv4Address, s: Seq<char>)
    requires
        ip.text() == s,
    ensures
        text_layout(ip, s),
{
    let da = decimal(ip.a as nat);
    let db = decimal(ip.b as nat);
    let dc = decimal(ip.c as nat);
    let dd = decimal(ip.d as nat);
    let la = da.len() as int;
    let lb = db.len() as int;
    let lc = dc.len() as int;
    let ld = dd.len() as int;
    lemma_decimal_digits(ip.a as nat);
    lemma_decimal_digits(ip.b as nat);
    lemma_decimal_digits(ip.c as nat);
    lemma_decimal_digits(ip.d as nat);
    assert(s.len() == la + lb + lc + ld + 3);
    assert(s.subrange(0, la) =~= da);
    assert(s[la] == '.');
    assert(s.subrange(la + 1, la + 1 + lb) =~= db);
    assert(s[la + 1 + lb] == '.');
    assert(s.subrange(la + lb + 2, la + lb + 2 + lc) =~= dc);
    assert(s[la + lb + lc + 2] == '.');
    assert(s.subrange(la + lb + lc + 3, la + lb + lc + 3 + ld) =~= dd);
}

fn push_decimal(s: &mut String, n: u8)
    ensures
        final(s)@ == old(s)@ + decimal(n as nat),
{
    let ghost start = s@;
    if n >= 100 {
        push_char(s, digit(n / 100));
    }
    if n >= 10 {
        push_char(s, digit((n / 10) % 10));
    }
    push_char(s, digit(n % 10));
    proof {
        assert(s@ =~= start + decimal(n as nat));
    }
}

/// The text of an IPv4 address holds no colon.
pub proof fn lemma_text_has_no_colon(ip: Ipv4Address)
    ensures
        forall|i: int| 0 <= i < ip.text().len() ==> #[trigger] ip.text()[i] != ':',
{
    lemma_decimal_digits(ip.a as nat);
    lemma_decimal_digits(ip.b as nat);
    lemma_decimal_digits(ip.c as nat);
    lemma_decimal_digits(ip.d as nat);
    let t = ip.text();
    let da = decimal(ip.a as nat);
    let db = decimal(ip.b as nat);
    let dc = decimal(ip.c as nat);
    let dd = decimal(ip.d as nat);
    assert forall|i: int| 0 <= i < t.len() implies #[trigger] t[i] != ':' by {
        let la = da.len() as int;
        let lb = db.len() as int;
        let lc = dc.len() as int;
        if i < la {
            assert(t[i] == da[i]);
        } else if la < i < la + 1 + lb {
            assert(t[i] == db[i - la - 1]);
        } else if la + 1 + lb < i < la + lb + 2 + lc {
            assert(t[i] == dc[i - la - lb - 2]);
        } else if la + lb + lc + 2 < i {
            assert(t[i] == dd[i - la - lb - lc - 3]);
        }
    }
}

/// Parsing text and formatting the address it gives yields that same text:
/// the dotted-decimal form that parsing accepts is the canonical one.
pub proof fn lemma_parse_format_round_trip(s: Seq<char>, ip: Ipv4Address)
    requires
        ip.text() == s,
    ensures
        forall|other: Ipv4Address| other.text() == s ==> other == ip,
{
    assert forall|other: Ipv4Address| other.text() == s implies other == ip by {
        lemma_text_layout(ip, s);
        lemma_text_layout(other, s);
        lemma_octet_at_unique(s, 0, ip.a, other.a);
        let la = decimal(ip.a as nat).len() as int;
        lemma_octet_at_unique(s, la + 1, ip.b, other.b);
        let lb = decimal(ip.b as nat).len() as int;
        lemma_octet_at_unique(s, la + lb + 2, ip.c, other.c);
        let lc = decimal(ip.c as nat).len() as int;
        lemma_octet_at_unique(s, la + lb + lc + 3, ip.d, other.d);
    }
}

proof fn lemma_octet_at_unique(s: Seq<char>, pos: int, v: u8, w: u8)
    requires
        octet_at(s, pos, v),
        octet_at(s, pos, w),
    ensures
        v == w,
{
    let dv = decimal(v as nat);
    let dw = decimal(w as nat);
    lemma_decimal_digits(v as nat);
    lemma_decimal_digits(w as nat);
    lemma_run_value_decimal(v as nat);
    lemma_run_value_decimal(w as nat);
    if dv.len() < dw.len() {
        assert(s[pos + dv.len()] == s.subrange(pos, pos + dw.len())[dv.len() as int]);
        assert(is_digit(dw[dv.len() as int]));
    } else if dw.len() < dv.len() {
        assert(s[pos + dw.len()] == s.subrange(pos, pos + dv.len())[dw.len() as int]);
        assert(is_digit(dv[dw.len() as int]));
    }
}

} // verus!
