use vstd::prelude::*;
use vstd::string::*;
use crate::ip::{is_digit, Ipv4Address};
use crate::text::push_char;

verus! {

/// Whether `c` is a lowercase hexadecimal digit.
pub open spec fn is_hex(c: char) -> bool {
    is_digit(c) || ('a' <= c && c <= 'f')
}

/// The lowercase character of the hexadecimal digit `d`.
pub open spec fn hex_char(d: nat) -> char {
    if d < 10 {
        ((d + 48) as u8) as char
    } else {
        ((d + 87) as u8) as char
    }
}

/// The value of the lowercase hexadecimal digit `c`.
pub open spec fn hex_value(c: char) -> nat {
    if is_digit(c) {
        (c as u32 - 48) as nat
    } else {
        (c as u32 - 87) as nat
    }
}

/// The lowercase hexadecimal text of `n < 65536`, without leading zeros.
pub open spec fn hex(n: nat) -> Seq<char> {
    if n < 16 {
        seq![hex_char(n)]
    } else if n < 256 {
        seq![hex_char(n / 16), hex_char(n % 16)]
    } else if n < 4096 {
        seq![hex_char(n / 256), hex_char((n / 16) % 16), hex_char(n % 16)]
    } else {
        seq![hex_char(n / 4096), hex_char((n / 256) % 16), hex_char((n / 16) % 16), hex_char(n % 16)]
    }
}

/// Segments in hexadecimal, separated by single colons.
pub open spec fn join(xs: Seq<u16>) -> Seq<char>
    decreases xs.len(),
{
    if xs.len() == 0 {
        Seq::empty()
    } else if xs.len() == 1 {
        hex(xs[0] as nat)
    } else {
        join(xs.drop_last()) + seq![':'] + hex(xs.last() as nat)
    }
}

/// Whether the `ln` segments from `st` on are all zero.
pub open spec fn zero_run(xs: Seq<u16>, st: int, ln: int) -> bool {
    &&& 0 <= st
    &&& 0 <= ln
    &&& st + ln <= xs.len()
    &&& forall|i: int| st <= i < st + ln ==> xs[i] == 0
}

/// The run of zero segments that the text compresses: at least two long,
/// the longest, and the first among the longest.
pub open spec fn best_run(xs: Seq<u16>, st: int, ln: int) -> bool {
    &&& ln >= 2
    &&& zero_run(xs, st, ln)
    &&& forall|s2: int, l2: int| #[trigger] zero_run(xs, s2, l2) ==> l2 <= ln
    &&& forall|s2: int| 0 <= s2 < st ==> !#[trigger] zero_run(xs, s2, ln)
}

/// An IPv6 address, as its eight 16-bit segments from the most significant
/// one.
#[derive(Clone, Copy, Debug, PartialEq, Eq)]
pub struct Ipv6Address {
    pub segments: [u16; 8],
}

impl Ipv6Address {
    /// Whether the address is an IPv4 address mapped into IPv6:
    /// `::ffff:a.b.c.d`.
    pub open spec fn is_mapped(self) -> bool {
        let xs = self.segments@;
        &&& forall|i: int| 0 <= i < 5 ==> xs[i] == 0
        &&& xs[5] == 0xffff
    }

    /// The IPv4 address held in the last two segments.
    pub open spec fn mapped_v4(self) -> Ipv4Address {
        let xs = self.segments@;
        Ipv4Address {
            a: (xs[6] / 256) as u8,
            b: (xs[6] % 256) as u8,
            c: (xs[7] / 256) as u8,
            d: (xs[7] % 256) as u8,
        }
    }

    /// The canonical text of the address: a mapped IPv4 address as
    /// `::ffff:` and its dotted-decimal text; otherwise the segments in
    /// lowercase hexadecimal without leading zeros, the longest run of two or
    /// more zero segments (the first of equals) written as `::`.
    pub open spec fn text(self) -> Seq<char> {
        let xs = self.segments@;
        if self.is_mapped() {
            seq![':', ':', 'f', 'f', 'f', 'f', ':'] + self.mapped_v4().text()
        } else if exists|p: (int, int)| best_run(xs, p.0, p.1) {
            let p = choose|p: (int, int)| best_run(xs, p.0, p.1);
            join(xs.subrange(0, p.0)) + seq![':', ':'] + join(xs.subrange(p.0 + p.1, 8))
        } else {
            join(xs)
        }
    }
}

proof fn lemma_best_run_unique(xs: Seq<u16>, st: int, ln: int, s2: int, l2: int)
    requires
        best_run(xs, st, ln),
        best_run(xs, s2, l2),
    ensures
        st == s2 && ln == l2,
{
    assert(zero_run(xs, s2, l2));
    assert(zero_run(xs, st, ln));
    assert(ln == l2);
    if s2 < st {
        assert(zero_run(xs, s2, ln));
    }
    if st < s2 {
        assert(zero_run(xs, st, l2));
    }
}

fn hex_digit(d: u16) -> (c: char)
    requires
        d < 16,
    ensures
        c == hex_char(d as nat),
        is_hex(c),
{
    if d < 10 {
        ((d as u8) + 48) as char
    } else {
        ((d as u8) + 87) as char
    }
}

fn push_hex(s: &mut String, n: u16)
    ensures
        final(s)@ == old(s)@ + hex(n as nat),
{
    let ghost start = s@;
    if n >= 4096 {
        push_char(s, hex_digit(n / 4096));
    }
    if n >= 256 {
        push_char(s, hex_digit((n / 256) % 16));
    }
    if n >= 16 {
        push_char(s, hex_digit((n / 16) % 16));
    }
    push_char(s, hex_digit(n % 16));
    proof {
        assert(s@ =~= start + hex(n as nat));
    }
}

/// Appends `segments[from..to]`, joined by colons.
fn push_join(s: &mut String, segments: &[u16; 8], from: usize, to: usize)
    requires
        from <= to <= 8,
    ensures
        final(s)@ == old(s)@ + join(segments@.subrange(from as int, to as int)),
{
    let ghost start = s@;
    let mut i = from;
    while i < to
        invariant
            from <= i <= to <= 8,
            s@ == start + join(segments@.subrange(from as int, i as int)),
        decreases to - i,
    {
        let ghost before = s@;
        if i > from {
            push_char(s, ':');
        }
        push_hex(s, segments[i]);
        proof {
            let sub = segments@.subrange(from as int, i + 1);
            assert(sub.drop_last() =~= segments@.subrange(from as int, i as int));
            if i == from {
                assert(segments@.subrange(from as int, i as int) =~= Seq::<u16>::empty());
            }
            assert(s@ =~= start + join(sub));
        }
        i = i + 1;
    }
}

/// The best run of zero segments, if any.
fn find_best_run(segments: &[u16; 8]) -> (r: Option<(usize, usize)>)
    ensures
        r matches Some((st, ln)) ==> best_run(segments@, st as int, ln as int),
        r is None ==> !exists|p: (int, int)| best_run(segments@, p.0, p.1),
{
    let mut ln: usize = 8;
    while ln >= 2
        invariant
            1 <= ln <= 8,
            forall|s2: int, l2: int| #[trigger] zero_run(segments@, s2, l2) ==> l2 <= ln,
        decreases ln,
    {
        let mut st: usize = 0;
        while st + ln <= 8
            invariant
                2 <= ln <= 8,
                st <= 8,
                forall|s2: int, l2: int| #[trigger] zero_run(segments@, s2, l2) ==> l2 <= ln,
                forall|s2: int| 0 <= s2 < st ==> !#[trigger] zero_run(segments@, s2, ln as int),
            decreases 8 - st,
        {
            let mut k: usize = 0;
            while k < ln && segments[st + k] == 0
                invariant
                    st + ln <= 8,
                    k <= ln,
                    forall|i: int| st <= i < st + k ==> segments@[i] == 0,
                decreases ln - k,
            {
                k = k + 1;
            }
            if k == ln {
                return Some((st, ln));
            }
            proof {
                assert(!zero_run(segments@, st as int, ln as int)) by {
                    assert(segments@[st + k] != 0);
                }
            }
            st = st + 1;
        }
        proof {
            assert forall|s2: int, l2: int| #[trigger] zero_run(segments@, s2, l2) implies l2 <= ln - 1 by {
                if l2 >= ln {
                    if s2 < st {
                        assert(zero_run(segments@, s2, ln as int));
                    } else {
                        assert(s2 + l2 > 8);
                    }
                }
            }
        }
        ln = ln - 1;
    }
    None
}

impl Ipv6Address {
    /// Formats the address in its canonical text.
    pub fn to_text(&self) -> (r: String)
        ensures
            r@ == self.text(),
    {
        let xs = &self.segments;
        let mut s = String::new();
        if xs[0] == 0 && xs[1] == 0 && xs[2] == 0 && xs[3] == 0 && xs[4] == 0 && xs[5] == 0xffff {
            push_char(&mut s, ':');
            push_char(&mut s, ':');
            push_char(&mut s, 'f');
            push_char(&mut s, 'f');
            push_char(&mut s, 'f');
            push_char(&mut s, 'f');
            push_char(&mut s, ':');
            let v4 = Ipv4Address {
                a: (xs[6] / 256) as u8,
                b: (xs[6] % 256) as u8,
                c: (xs[7] / 256) as u8,
                d: (xs[7] % 256) as u8,
            };
            let t = v4.to_text();
            s.append(t.as_str());
            proof {
                assert(self.is_mapped());
                assert(s@ =~= self.text());
            }
            return s;
        }
        proof {
            assert(!self.is_mapped());
        }
        match find_best_run(xs) {
            Some((st, ln)) => {
                push_join(&mut s, xs, 0, st);
                push_char(&mut s, ':');
                push_char(&mut s, ':');
                push_join(&mut s, xs, st + ln, 8);
                proof {
                    let p = choose|p: (int, int)| best_run(xs@, p.0, p.1);
                    lemma_best_run_unique(xs@, st as int, ln as int, p.0, p.1);
                    assert(s@ =~= self.text());
                }
            },
            None => {
                push_join(&mut s, xs, 0, 8);
                proof {
                    assert(xs@.subrange(0, 8) =~= xs@);
                }
            },
        }
        s
    }
}

/// The value of a run of hexadecimal digits, most significant first.
pub open spec fn hex_run_value(s: Seq<char>) -> nat
    decreases s.len(),
{
    if s.len() == 0 {
        0
    } else {
        hex_run_value(s.drop_last()) * 16 + hex_value(s.last())
    }
}

proof fn lemma_hex_char(d: nat)
    requires
        d < 16,
    ensures
        hex_value(hex_char(d)) == d,
        is_hex(hex_char(d)),
{
}

/// The canonical text of a segment: one to four lowercase digits, with
/// the segment's value.
pub(crate) proof fn lemma_hex(n: nat)
    requires
        n < 65536,
    ensures
        1 <= hex(n).len() <= 4,
        forall|i: int| 0 <= i < hex(n).len() ==> is_hex(#[trigger] hex(n)[i]),
        hex_run_value(hex(n)) == n,
{
    lemma_hex_char(n % 16);
    lemma_hex_char((n / 16) % 16);
    lemma_hex_char((n / 256) % 16);
    if n < 256 {
        lemma_hex_char(n / 16);
    }
    if n < 4096 {
        lemma_hex_char(n / 256);
    }
    lemma_hex_char(n / 4096);
    lemma_hex_value(n);
}

proof fn lemma_hex_run_step(d: Seq<char>)
    requires
        d.len() > 0,
    ensures
        hex_run_value(d) == hex_run_value(d.drop_last()) * 16 + hex_value(d.last()),
{
}

#[verifier::rlimit(40)]
proof fn lemma_hex_value(n: nat)
    requires
        n < 65536,
    ensures
        hex_run_value(hex(n)) == n,
{
    let d = hex(n);
    lemma_hex_char(n % 16);
    lemma_hex_run_step(d);
    if n < 16 {
        assert(d.drop_last() =~= Seq::<char>::empty());
    } else if n < 256 {
        lemma_hex_char(n / 16);
        let d1 = d.drop_last();
        assert(d1 =~= seq![hex_char(n / 16)]);
        assert(d1.drop_last() =~= Seq::<char>::empty());
        lemma_hex_run_step(d1);
    } else if n < 4096 {
        lemma_hex_char(n / 256);
        lemma_hex_char((n / 16) % 16);
        let d1 = d.drop_last();
        let d2 = d1.drop_last();
        assert(d1 =~= seq![hex_char(n / 256), hex_char((n / 16) % 16)]);
        assert(d2 =~= seq![hex_char(n / 256)]);
        assert(d2.drop_last() =~= Seq::<char>::empty());
        lemma_hex_run_step(d1);
        lemma_hex_run_step(d2);
    } else {
        lemma_hex_char(n / 4096);
        lemma_hex_char((n / 256) % 16);
        lemma_hex_char((n / 16) % 16);
        let d1 = d.drop_last();
        let d2 = d1.drop_last();
        let d3 = d2.drop_last();
        assert(d1 =~= seq![hex_char(n / 4096), hex_char((n / 256) % 16), hex_char((n / 16) % 16)]);
        assert(d2 =~= seq![hex_char(n / 4096), hex_char((n / 256) % 16)]);
        assert(d3 =~= seq![hex_char(n / 4096)]);
        assert(d3.drop_last() =~= Seq::<char>::empty());
        lemma_hex_run_step(d1);
        lemma_hex_run_step(d2);
        lemma_hex_run_step(d3);
    }
}

proof fn lemma_join_front(xs: Seq<u16>)
    requires
        xs.len() >= 2,
    ensures
        join(xs) == hex(xs[0] as nat) + seq![':'] + join(xs.drop_first()),
    decreases xs.len(),
{
    if xs.len() == 2 {
        assert(xs.drop_last() =~= seq![xs[0]]);
        assert(xs.drop_first() =~= seq![xs[1]]);
        assert(join(xs.drop_last()) == hex(xs[0] as nat));
        assert(join(xs.drop_first()) == hex(xs[1] as nat));
        assert(join(xs) =~= hex(xs[0] as nat) + seq![':'] + join(xs.drop_first()));
    } else {
        let init = xs.drop_last();
        let tail = xs.drop_first();
        lemma_join_front(init);
        assert(init.drop_first() =~= tail.drop_last());
        assert(tail.last() == xs.last());
        assert(init[0] == xs[0]);
        assert(join(tail) == join(tail.drop_last()) + seq![':'] + hex(tail.last() as nat));
        assert(join(xs) == join(init) + seq![':'] + hex(xs.last() as nat));
        assert(join(xs) =~= hex(xs[0] as nat) + seq![':'] + join(xs.drop_first()));
    }
}

proof fn lemma_join_nonempty(xs: Seq<u16>)
    requires
        xs.len() >= 1,
    ensures
        join(xs).len() > 0,
{
    lemma_hex(xs.last() as nat);
    if xs.len() == 1 {
        assert(xs[0] == xs.last());
    }
}

/// Whether `s` holds two colons in a row at `i`.
pub open spec fn double_colon_at(s: Seq<char>, i: int) -> bool {
    0 <= i && i + 1 < s.len() && s[i] == ':' && s[i + 1] == ':'
}

proof fn lemma_join_shape(xs: Seq<u16>)
    ensures
        forall|i: int| 0 <= i < join(xs).len() ==> join(xs)[i] == ':' || is_hex(#[trigger] join(xs)[i]),
        forall|i: int| !#[trigger] double_colon_at(join(xs), i),
        xs.len() >= 1 ==> is_hex(join(xs)[0]) && is_hex(join(xs).last()),
    decreases xs.len(),
{
    if xs.len() == 0 {
        assert forall|i: int| !#[trigger] double_colon_at(join(xs), i) by {}
    } else if xs.len() == 1 {
        lemma_hex(xs[0] as nat);
        assert forall|i: int| !#[trigger] double_colon_at(join(xs), i) by {
            if double_colon_at(join(xs), i) {
                assert(is_hex(join(xs)[i]));
            }
        }
    } else {
        let init = xs.drop_last();
        lemma_join_shape(init);
        lemma_join_nonempty(init);
        lemma_hex(xs.last() as nat);
        let j = join(init);
        let h = hex(xs.last() as nat);
        let t = join(xs);
        assert(t =~= j + seq![':'] + h);
        assert forall|i: int| 0 <= i < t.len() implies t[i] == ':' || is_hex(#[trigger] t[i]) by {
            if i < j.len() {
                assert(t[i] == j[i]);
            } else if i > j.len() {
                assert(t[i] == h[i - j.len() - 1]);
            }
        }
        assert forall|i: int| !#[trigger] double_colon_at(t, i) by {
            if double_colon_at(t, i) {
                if i + 1 < j.len() {
                    assert(t[i] == j[i] && t[i + 1] == j[i + 1]);
                    assert(double_colon_at(j, i));
                } else if i + 1 == j.len() {
                    assert(t[i] == j.last());
                } else {
                    assert(t[i + 1] == h[i - j.len()]);
                }
            }
        }
        assert(t[0] == j[0]);
        assert(t.last() == h.last());
    }
}

proof fn lemma_first_double_colon(p: Seq<u16>, q: Seq<u16>, t: Seq<char>)
    requires
        t == join(p) + seq![':', ':'] + join(q),
    ensures
        double_colon_at(t, join(p).len() as int),
        forall|i: int| 0 <= i < join(p).len() ==> !#[trigger] double_colon_at(t, i),
{
    let j = join(p);
    lemma_join_shape(p);
    assert(t[j.len() as int] == ':');
    assert(t[j.len() as int + 1] == ':');
    assert forall|i: int| 0 <= i < j.len() implies !#[trigger] double_colon_at(t, i) by {
        if double_colon_at(t, i) {
            if i + 1 < j.len() {
                assert(t[i] == j[i] && t[i + 1] == j[i + 1]);
                assert(double_colon_at(j, i));
            } else {
                assert(t[i] == j.last());
            }
        }
    }
}

/// The position of the first two colons in a row, if any.
pub(crate) fn find_double_colon(s: &str, len: usize) -> (r: Option<usize>)
    requires
        len == s@.len(),
    ensures
        r matches Some(p) ==> double_colon_at(s@, p as int) && forall|i: int|
            0 <= i < p ==> !#[trigger] double_colon_at(s@, i),
        r is None ==> forall|i: int| !#[trigger] double_colon_at(s@, i),
{
    let mut i: usize = 0;
    while i < len && i + 1 < len
        invariant
            len == s@.len(),
            i <= len,
            forall|k: int| 0 <= k < i ==> !#[trigger] double_colon_at(s@, k),
        decreases len - i,
    {
        if s.get_char(i) == ':' && s.get_char(i + 1) == ':' {
            return Some(i);
        }
        i = i + 1;
    }
    None
}

/// Segment `i` of the address written as `left`, zeros, then `right`.
pub(crate) fn segment_at(left: &Vec<u16>, right: &Vec<u16>, i: usize) -> (r: u16)
    requires
        left@.len() + right@.len() <= 8,
        i < 8,
    ensures
        r == (if i < left@.len() {
            left@[i as int]
        } else if i >= 8 - right@.len() {
            right@[i - (8 - right@.len())]
        } else {
            0
        }),
{
    if i < left.len() {
        left[i]
    } else if i >= 8 - right.len() {
        right[i - (8 - right.len())]
    } else {
        0
    }
}

proof fn lemma_hex_form_chars(a: Ipv6Address)
    requires
        !a.is_mapped(),
    ensures
        forall|i: int| 0 <= i < a.text().len() ==> a.text()[i] == ':' || is_hex(#[trigger] a.text()[i]),
{
    let xs = a.segments@;
    let t = a.text();
    if exists|q: (int, int)| best_run(xs, q.0, q.1) {
        let q = choose|q: (int, int)| best_run(xs, q.0, q.1);
        let jp = join(xs.subrange(0, q.0));
        let jq = join(xs.subrange(q.0 + q.1, 8));
        lemma_join_shape(xs.subrange(0, q.0));
        lemma_join_shape(xs.subrange(q.0 + q.1, 8));
        assert forall|i: int| 0 <= i < t.len() implies t[i] == ':' || is_hex(#[trigger] t[i]) by {
            if i < jp.len() {
                assert(t[i] == jp[i]);
            } else if i >= jp.len() + 2 {
                assert(t[i] == jq[i - jp.len() - 2]);
            }
        }
    } else {
        lemma_join_shape(xs);
    }
}

proof fn lemma_mapped_dot(a: Ipv6Address)
    requires
        a.is_mapped(),
    ensures
        a.text()[7 + crate::ip::decimal(a.mapped_v4().a as nat).len() as int] == '.',
{
    let v = a.mapped_v4();
    let la = crate::ip::decimal(v.a as nat).len() as int;
    assert(v.text()[la] == '.');
    assert(a.text()[7 + la] == v.text()[la]);
}

impl Ipv6Address {
    /// Parses an IPv6 literal in any of its spellings: hexadecimal digits in
    /// either case, leading zeros, zero segments written out or compressed
    /// by one `::`, and a dotted IPv4 tail.
    pub fn parse(s: &str) -> (r: Option<Ipv6Address>)
        ensures
            r matches Some(a) ==> crate::ip6_parse::denotes(s@, a),
            forall|a: Ipv6Address| crate::ip6_parse::denotes(s@, a) ==> r == Some(a),
    {
        crate::ip6_parse::parse_literal(s)
    }
}

/// The text of an IPv6 address holds a colon.
pub proof fn lemma_text_has_colon(a: Ipv6Address)
    ensures
        exists|i: int| 0 <= i < a.text().len() && #[trigger] a.text()[i] == ':',
{
    let xs = a.segments@;
    let t = a.text();
    if a.is_mapped() {
        assert(t[0] == ':');
    } else if exists|q: (int, int)| best_run(xs, q.0, q.1) {
        let q = choose|q: (int, int)| best_run(xs, q.0, q.1);
        let jp = join(xs.subrange(0, q.0));
        assert(t[jp.len() as int] == ':');
    } else {
        let init = xs.drop_last();
        assert(t == join(init) + seq![':'] + hex(xs.last() as nat));
        assert(t[join(init).len() as int] == ':');
    }
}

proof fn lemma_join_injective(xs: Seq<u16>, ys: Seq<u16>)
    requires
        xs.len() >= 1,
        ys.len() >= 1,
        join(xs) == join(ys),
    ensures
        xs == ys,
    decreases xs.len(),
{
    let hx = hex(xs[0] as nat);
    let hy = hex(ys[0] as nat);
    let t = join(xs);
    lemma_hex(xs[0] as nat);
    lemma_hex(ys[0] as nat);
    if xs.len() == 1 && ys.len() == 1 {
        assert(hx == hy);
        assert(xs =~= ys);
    } else if xs.len() == 1 {
        lemma_join_front(ys);
        assert(t[hy.len() as int] == ':');
        assert(is_hex(hx[hy.len() as int]));
    } else if ys.len() == 1 {
        lemma_join_front(xs);
        assert(t[hx.len() as int] == ':');
        assert(is_hex(hy[hx.len() as int]));
    } else {
        lemma_join_front(xs);
        lemma_join_front(ys);
        if hx.len() < hy.len() {
            assert(t[hx.len() as int] == ':');
            assert(t[hx.len() as int] == hy[hx.len() as int]);
        } else if hy.len() < hx.len() {
            assert(t[hy.len() as int] == ':');
            assert(t[hy.len() as int] == hx[hy.len() as int]);
        } else {
            assert(t.subrange(0, hx.len() as int) =~= hx);
            assert(t.subrange(0, hy.len() as int) =~= hy);
            let m = hx.len() as int + 1;
            assert(t.subrange(m, t.len() as int) =~= join(xs.drop_first()));
            assert(t.subrange(m, t.len() as int) =~= join(ys.drop_first()));
            lemma_join_nonempty(xs.drop_first());
            lemma_join_injective(xs.drop_first(), ys.drop_first());
            assert(xs =~= seq![xs[0]] + xs.drop_first());
            assert(ys =~= seq![ys[0]] + ys.drop_first());
        }
    }
}

/// Equal joins of possibly empty segment lists are of equal lists.
proof fn lemma_join_injective_any(xs: Seq<u16>, ys: Seq<u16>)
    requires
        join(xs) == join(ys),
    ensures
        xs == ys,
{
    if xs.len() == 0 && ys.len() == 0 {
        assert(xs =~= ys);
    } else if xs.len() == 0 {
        lemma_join_nonempty(ys);
    } else if ys.len() == 0 {
        lemma_join_nonempty(xs);
    } else {
        lemma_join_injective(xs, ys);
    }
}

proof fn lemma_hex_form_injective(a: Ipv6Address, b: Ipv6Address)
    requires
        !a.is_mapped(),
        !b.is_mapped(),
        a.text() == b.text(),
    ensures
        a == b,
{
    let xs = a.segments@;
    let ys = b.segments@;
    let t = a.text();
    let ra = exists|q: (int, int)| best_run(xs, q.0, q.1);
    let rb = exists|q: (int, int)| best_run(ys, q.0, q.1);
    if ra && rb {
        let qa = choose|q: (int, int)| best_run(xs, q.0, q.1);
        let qb = choose|q: (int, int)| best_run(ys, q.0, q.1);
        let pa = xs.subrange(0, qa.0);
        let pb = ys.subrange(0, qb.0);
        let sa = xs.subrange(qa.0 + qa.1, 8);
        let sb = ys.subrange(qb.0 + qb.1, 8);
        lemma_first_double_colon(pa, sa, t);
        lemma_first_double_colon(pb, sb, t);
        let la = join(pa).len() as int;
        let lb = join(pb).len() as int;
        if la < lb {
            assert(double_colon_at(t, la));
        }
        if lb < la {
            assert(double_colon_at(t, lb));
        }
        assert(t.subrange(0, la) =~= join(pa));
        assert(t.subrange(0, lb) =~= join(pb));
        assert(t.subrange(la + 2, t.len() as int) =~= join(sa));
        assert(t.subrange(lb + 2, t.len() as int) =~= join(sb));
        lemma_join_injective_any(pa, pb);
        lemma_join_injective_any(sa, sb);
        assert(qa.0 == qb.0);
        assert(qa.1 == qb.1);
        assert forall|i: int| 0 <= i < 8 implies xs[i] == ys[i] by {
            if i < qa.0 {
                assert(xs[i] == pa[i] && ys[i] == pb[i]);
            } else if i >= qa.0 + qa.1 {
                assert(xs[i] == sa[i - qa.0 - qa.1] && ys[i] == sb[i - qb.0 - qb.1]);
            }
        }
        assert(a.segments =~= b.segments);
    } else if ra {
        let qa = choose|q: (int, int)| best_run(xs, q.0, q.1);
        lemma_first_double_colon(xs.subrange(0, qa.0), xs.subrange(qa.0 + qa.1, 8), t);
        lemma_join_shape(ys);
        assert(double_colon_at(join(ys), join(xs.subrange(0, qa.0)).len() as int));
    } else if rb {
        let qb = choose|q: (int, int)| best_run(ys, q.0, q.1);
        lemma_first_double_colon(ys.subrange(0, qb.0), ys.subrange(qb.0 + qb.1, 8), t);
        lemma_join_shape(xs);
        assert(double_colon_at(join(xs), join(ys.subrange(0, qb.0)).len() as int));
    } else {
        lemma_join_injective(xs, ys);
        assert(a.segments =~= b.segments);
    }
}

/// Two IPv6 addresses with the same canonical text are the same address.
pub proof fn lemma_text_injective(a: Ipv6Address, b: Ipv6Address)
    requires
        a.text() == b.text(),
    ensures
        a == b,
{
    if a.is_mapped() && b.is_mapped() {
        let prefix = seq![':', ':', 'f', 'f', 'f', 'f', ':'];
        let t = a.text();
        assert(t.subrange(7, t.len() as int) =~= a.mapped_v4().text());
        assert(t.subrange(7, t.len() as int) =~= b.mapped_v4().text());
        crate::ip::lemma_parse_format_round_trip(a.mapped_v4().text(), a.mapped_v4());
        assert(a.mapped_v4() == b.mapped_v4());
        let xs = a.segments@;
        let ys = b.segments@;
        assert(xs[6] == (xs[6] / 256) * 256 + xs[6] % 256);
        assert(ys[6] == (ys[6] / 256) * 256 + ys[6] % 256);
        assert(xs[7] == (xs[7] / 256) * 256 + xs[7] % 256);
        assert(ys[7] == (ys[7] / 256) * 256 + ys[7] % 256);
        assert(a.segments =~= b.segments);
    } else if a.is_mapped() {
        lemma_hex_form_chars(b);
        lemma_mapped_dot(a);
        crate::ip::lemma_decimal_len(a.mapped_v4().a as nat);
    } else if b.is_mapped() {
        lemma_hex_form_chars(a);
        lemma_mapped_dot(b);
        crate::ip::lemma_decimal_len(b.mapped_v4().a as nat);
    } else {
        lemma_hex_form_injective(a, b);
    }
}

} // verus!
