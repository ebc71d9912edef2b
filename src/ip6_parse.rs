use vstd::prelude::*;
use vstd::string::*;
use crate::ip::{is_digit, Ipv4Address};
use crate::ip6::{best_run, double_colon_at, find_double_colon, hex, hex_run_value, is_hex, join, segment_at, Ipv6Address};

verus! {

/// Whether `c` is a hexadecimal digit, in either case.
pub open spec fn is_hex_any(c: char) -> bool {
    is_digit(c) || ('a' <= c && c <= 'f') || ('A' <= c && c <= 'F')
}

/// The value of the hexadecimal digit `c`, in either case.
pub open spec fn hex_any_value(c: char) -> nat {
    if is_digit(c) {
        (c as u32 - 48) as nat
    } else if 'a' <= c && c <= 'f' {
        (c as u32 - 87) as nat
    } else {
        (c as u32 - 55) as nat
    }
}

/// The value of a run of hexadecimal digits, most significant first.
pub open spec fn group_value(g: Seq<char>) -> nat
    decreases g.len(),
{
    if g.len() == 0 {
        0
    } else {
        group_value(g.drop_last()) * 16 + hex_any_value(g.last())
    }
}

/// Whether `g` spells a 16-bit group: one to four hexadecimal digits.
pub open spec fn is_group(g: Seq<char>) -> bool {
    &&& 1 <= g.len() <= 4
    &&& forall|i: int| 0 <= i < g.len() ==> is_hex_any(#[trigger] g[i])
}

/// Whether every entry of `gs` spells a group.
pub open spec fn all_groups(gs: Seq<Seq<char>>) -> bool {
    forall|i: int| 0 <= i < gs.len() ==> is_group(#[trigger] gs[i])
}

/// Group spellings separated by single colons.
pub open spec fn join_groups(gs: Seq<Seq<char>>) -> Seq<char>
    decreases gs.len(),
{
    if gs.len() == 0 {
        Seq::empty()
    } else if gs.len() == 1 {
        gs[0]
    } else {
        join_groups(gs.drop_last()) + seq![':'] + gs.last()
    }
}

/// The values of group spellings.
pub open spec fn group_values(gs: Seq<Seq<char>>) -> Seq<u16> {
    gs.map_values(|g: Seq<char>| group_value(g) as u16)
}

/// Sixteen to the power `n`.
pub open spec fn pow16(n: nat) -> nat
    decreases n,
{
    if n == 0 {
        1
    } else {
        pow16((n - 1) as nat) * 16
    }
}

/// Reads the run of hexadecimal digits at `pos`, before `to`: at most four,
/// and not followed by a fifth.
fn read_group(s: &str, to: usize, pos: usize) -> (r: Option<(u16, usize)>)
    requires
        to <= s@.len(),
        pos <= to,
    ensures
        r matches Some((v, e)) ==> {
            &&& pos < e <= to
            &&& is_group(s@.subrange(pos as int, e as int))
            &&& v == group_value(s@.subrange(pos as int, e as int))
            &&& (e == to || !is_hex_any(s@[e as int]))
        },
        forall|g: Seq<char>|
            #![trigger is_group(g), s@.subrange(pos as int, pos + g.len())]
            is_group(g) && pos + g.len() <= to && s@.subrange(pos as int, pos + g.len()) == g && (pos
                + g.len() == to || !is_hex_any(s@[pos + g.len()])) ==> r == Some(
                (group_value(g) as u16, (pos + g.len()) as usize),
            ),
{
    let mut k: usize = 0;
    let mut val: u32 = 0;
    let mut stopped = false;
    while k < 4 && pos + k < to && !stopped
        invariant
            k <= 4,
            pos + k <= to,
            to <= s@.len(),
            val == group_value(s@.subrange(pos as int, pos + k)),
            val < pow16(k as nat),
            forall|i: int| pos <= i < pos + k ==> is_hex_any(#[trigger] s@[i]),
            stopped ==> pos + k < to && !is_hex_any(s@[pos + k]),
        decreases 4 - k + (if stopped { 0int } else { 1int }),
    {
        let c = s.get_char(pos + k);
        let d: u32 = if '0' <= c && c <= '9' {
            c as u32 - 48
        } else if 'a' <= c && c <= 'f' {
            c as u32 - 87
        } else if 'A' <= c && c <= 'F' {
            c as u32 - 55
        } else {
            16
        };
        if d < 16 {
            proof {
                let sub = s@.subrange(pos as int, pos + k + 1);
                assert(sub.drop_last() =~= s@.subrange(pos as int, pos + k));
                assert(pow16((k + 1) as nat) == pow16(k as nat) * 16);
                assert(val * 16 + d < pow16(k as nat) * 16) by (nonlinear_arith)
                    requires
                        val < pow16(k as nat),
                        d < 16,
                ;
                assert(pow16(k as nat) <= 4096) by {
                    assert(pow16(0) == 1);
                    assert(pow16(1) == 16);
                    assert(pow16(2) == 256);
                    assert(pow16(3) == 4096);
                }
            }
            val = val * 16 + d;
            k = k + 1;
        } else {
            stopped = true;
        }
    }
    proof {
        assert(pow16(4) == 65536) by {
            assert(pow16(0) == 1);
            assert(pow16(1) == 16);
            assert(pow16(2) == 256);
            assert(pow16(3) == 4096);
        }
        assert(pow16(k as nat) <= 65536) by {
            assert(pow16(0) == 1);
            assert(pow16(1) == 16);
            assert(pow16(2) == 256);
            assert(pow16(3) == 4096);
        }
        assert forall|g: Seq<char>|
            #![trigger is_group(g), s@.subrange(pos as int, pos + g.len())]
            is_group(g) && pos + g.len() <= to && s@.subrange(pos as int, pos + g.len()) == g && (pos
                + g.len() == to || !is_hex_any(s@[pos + g.len()])) implies k == g.len() by {
            let m = g.len() as int;
            assert forall|i: int| pos <= i < pos + m implies is_hex_any(#[trigger] s@[i]) by {
                assert(s@[i] == g[i - pos]);
            }
            if k < m {
                assert(is_hex_any(s@[pos + k]));
            }
            if k > m {
                assert(is_hex_any(s@[pos + m]));
            }
        }
    }
    if k == 0 {
        return None;
    }
    if pos + k < to {
        let c = s.get_char(pos + k);
        if ('0' <= c && c <= '9') || ('a' <= c && c <= 'f') || ('A' <= c && c <= 'F') {
            return None;
        }
    }
    Some((val as u16, pos + k))
}

/// Groups, then, where `v4` is given, a dotted IPv4 address standing for
/// the last two groups.
pub open spec fn render_part(gs: Seq<Seq<char>>, v4: Option<Ipv4Address>) -> Seq<char> {
    match v4 {
        None => join_groups(gs),
        Some(w) => if gs.len() == 0 {
            w.text()
        } else {
            join_groups(gs) + seq![':'] + w.text()
        },
    }
}

/// The two groups that a dotted IPv4 address stands for.
pub open spec fn v4_groups(w: Ipv4Address) -> Seq<u16> {
    seq![(w.a * 256 + w.b) as u16, (w.c * 256 + w.d) as u16]
}

/// The segment values that a part spells.
pub open spec fn part_values(gs: Seq<Seq<char>>, v4: Option<Ipv4Address>) -> Seq<u16> {
    match v4 {
        None => group_values(gs),
        Some(w) => group_values(gs) + v4_groups(w),
    }
}

/// How many segments a part spells.
pub open spec fn part_len(gs: Seq<Seq<char>>, v4: Option<Ipv4Address>) -> int {
    gs.len() + if v4 is Some { 2int } else { 0int }
}

proof fn lemma_join_groups_front(gs: Seq<Seq<char>>)
    requires
        gs.len() >= 2,
    ensures
        join_groups(gs) == gs[0] + seq![':'] + join_groups(gs.drop_first()),
    decreases gs.len(),
{
    if gs.len() == 2 {
        assert(gs.drop_last() =~= seq![gs[0]]);
        assert(gs.drop_first() =~= seq![gs[1]]);
        assert(join_groups(gs.drop_last()) == gs[0]);
        assert(join_groups(gs.drop_first()) == gs[1]);
        assert(join_groups(gs) =~= gs[0] + seq![':'] + join_groups(gs.drop_first()));
    } else {
        let init = gs.drop_last();
        let tail = gs.drop_first();
        lemma_join_groups_front(init);
        assert(init.drop_first() =~= tail.drop_last());
        assert(tail.last() == gs.last());
        assert(init[0] == gs[0]);
        assert(join_groups(tail) == join_groups(tail.drop_last()) + seq![':'] + tail.last());
        assert(join_groups(gs) == join_groups(init) + seq![':'] + gs.last());
        assert(join_groups(gs) =~= gs[0] + seq![':'] + join_groups(gs.drop_first()));
    }
}

proof fn lemma_render_front(gs: Seq<Seq<char>>, v4: Option<Ipv4Address>)
    requires
        gs.len() >= 1,
    ensures
        gs.len() == 1 && v4 is None ==> render_part(gs, v4) == gs[0],
        !(gs.len() == 1 && v4 is None) ==> render_part(gs, v4) == gs[0] + seq![':'] + render_part(
            gs.drop_first(),
            v4,
        ),
{
    if gs.len() >= 2 {
        lemma_join_groups_front(gs);
        if let Some(w) = v4 {
            lemma_join_groups_nonempty(gs.drop_first());
            assert(render_part(gs, v4) =~= gs[0] + seq![':'] + render_part(gs.drop_first(), v4));
        }
    } else {
        assert(gs.drop_first() =~= Seq::<Seq<char>>::empty());
        if let Some(w) = v4 {
            assert(render_part(gs, v4) =~= gs[0] + seq![':'] + render_part(gs.drop_first(), v4));
        }
    }
}

proof fn lemma_join_groups_nonempty(gs: Seq<Seq<char>>)
    requires
        gs.len() >= 1,
    ensures
        gs.len() >= 2 ==> join_groups(gs).len() > 0,
        gs.len() == 1 ==> join_groups(gs) == gs[0],
{
}

proof fn lemma_part_step(s: Seq<char>, pos: int, to: int, gs: Seq<Seq<char>>, k: int, v4: Option<Ipv4Address>)
    requires
        0 <= pos <= to <= s.len(),
        0 <= k <= gs.len(),
        all_groups(gs),
        k < gs.len() || v4 is Some,
        render_part(gs.subrange(k, gs.len() as int), v4) == s.subrange(pos, to),
    ensures
        if k < gs.len() {
            let g = gs[k];
            &&& is_group(g)
            &&& pos + g.len() <= to
            &&& s.subrange(pos, pos + g.len()) == g
            &&& (pos + g.len() == to <==> (k + 1 == gs.len() && v4 is None))
            &&& (pos + g.len() < to ==> s[pos + g.len()] == ':' && render_part(
                gs.subrange(k + 1, gs.len() as int),
                v4,
            ) == s.subrange(pos + g.len() + 1, to))
        } else {
            &&& v4 is Some
            &&& s.subrange(pos, to) == v4.unwrap().text()
        },
{
    let rest = gs.subrange(k, gs.len() as int);
    let t = s.subrange(pos, to);
    assert(t.len() == to - pos);
    if k < gs.len() {
        let g = gs[k];
        assert(is_group(g));
        assert(rest[0] == g);
        lemma_render_front(rest, v4);
        assert(rest.drop_first() =~= gs.subrange(k + 1, gs.len() as int));
        if rest.len() == 1 && v4 is None {
            assert(s.subrange(pos, pos + g.len()) =~= t);
        } else {
            let more = render_part(rest.drop_first(), v4);
            assert(t =~= g + seq![':'] + more);
            assert(s.subrange(pos, pos + g.len()) =~= t.subrange(0, g.len() as int));
            assert(s[pos + g.len()] == t[g.len() as int]);
            assert(s.subrange(pos + g.len() + 1, to) =~= t.subrange(g.len() as int + 1, t.len() as int));
        }
    } else {
        assert(rest =~= Seq::<Seq<char>>::empty());
    }
}

proof fn lemma_v4_start(s: Seq<char>, pos: int, to: int, w: Ipv4Address)
    requires
        0 <= pos <= to <= s.len(),
        s.subrange(pos, to) == w.text(),
    ensures
        ({
            let d = crate::ip::decimal(w.a as nat);
            &&& is_group(d)
            &&& pos + d.len() < to
            &&& s.subrange(pos, pos + d.len()) == d
            &&& s[pos + d.len()] == '.'
            &&& !is_hex_any(s[pos + d.len()])
        }),
{
    let d = crate::ip::decimal(w.a as nat);
    crate::ip::lemma_decimal_digits(w.a as nat);
    let t = s.subrange(pos, to);
    let rest = seq!['.'] + crate::ip::decimal(w.b as nat) + seq!['.'] + crate::ip::decimal(w.c as nat)
        + seq!['.'] + crate::ip::decimal(w.d as nat);
    assert(w.text() =~= d + rest);
    assert(t.len() > d.len());
    assert(t.subrange(0, d.len() as int) =~= d);
    assert(s.subrange(pos, pos + d.len()) =~= t.subrange(0, d.len() as int));
    assert(t[d.len() as int] == '.');
    assert(s[pos + d.len()] == t[d.len() as int]);
}

/// Reads `s[from..to]` as groups separated by single colons, the last two
/// possibly written as a dotted IPv4 address where `allow_v4` holds; an
/// empty part gives no segment.
#[verifier::rlimit(100)]
#[verifier::spinoff_prover]
fn read_part(s: &str, from: usize, to: usize, allow_v4: bool) -> (r: Option<Vec<u16>>)
    requires
        from <= to <= s@.len(),
    ensures
        from == to ==> (r matches Some(v) && v@.len() == 0),
        r matches Some(v) ==> exists|gs: Seq<Seq<char>>, v4: Option<Ipv4Address>|
            {
                &&& all_groups(gs)
                &&& (allow_v4 || v4 is None)
                &&& part_len(gs, v4) <= 9
                &&& #[trigger] render_part(gs, v4) == s@.subrange(from as int, to as int)
                &&& part_values(gs, v4) == v@
            },
        forall|gs: Seq<Seq<char>>, v4: Option<Ipv4Address>|
            all_groups(gs) && (allow_v4 || v4 is None) && part_len(gs, v4) <= 8 && (gs.len() >= 1
                || v4 is Some) && #[trigger] render_part(gs, v4) == s@.subrange(from as int, to as int)
                ==> (r matches Some(v) && v@ == part_values(gs, v4)),
{
    let mut out: Vec<u16> = Vec::new();
    if from == to {
        proof {
            let gs = Seq::<Seq<char>>::empty();
            assert(render_part(gs, None) =~= s@.subrange(from as int, to as int));
            assert(part_values(gs, None) =~= out@);
            assert forall|gs: Seq<Seq<char>>, v4: Option<Ipv4Address>|
                all_groups(gs) && (gs.len() >= 1 || v4 is Some) implies #[trigger] render_part(gs, v4).len() > 0 by {
                if gs.len() >= 1 {
                    assert(is_group(gs[0]));
                    lemma_render_front(gs, v4);
                } else {
                    let w = v4.unwrap();
                    crate::ip::lemma_decimal_digits(w.a as nat);
                }
            }
        }
        return Some(out);
    }
    let ghost mut read: Seq<Seq<char>> = Seq::empty();
    let mut pos = from;
    proof {
        assert forall|gs: Seq<Seq<char>>, v4: Option<Ipv4Address>|
            all_groups(gs) && (allow_v4 || v4 is None) && part_len(gs, v4) <= 8 && (gs.len() >= 1
                || v4 is Some) && #[trigger] render_part(gs, v4) == s@.subrange(from as int, to as int)
            implies render_part(gs.subrange(0, gs.len() as int), v4) == s@.subrange(pos as int, to as int) by {
            assert(gs.subrange(0, gs.len() as int) =~= gs);
        }
    }
    loop
        invariant
            from <= pos <= to <= s@.len(),
            from < to,
            all_groups(read),
            out@ == group_values(read),
            read.len() <= 7,
            read.len() == 0 ==> pos == from,
            read.len() > 0 ==> pos > from && join_groups(read) + seq![':'] == s@.subrange(from as int, pos as int),
            forall|gs: Seq<Seq<char>>, v4: Option<Ipv4Address>|
                all_groups(gs) && (allow_v4 || v4 is None) && part_len(gs, v4) <= 8 && (gs.len() >= 1
                    || v4 is Some) && #[trigger] render_part(gs, v4) == s@.subrange(from as int, to as int)
                    ==> {
                    &&& read.len() <= gs.len()
                    &&& read == gs.subrange(0, read.len() as int)
                    &&& (read.len() < gs.len() || v4 is Some)
                    &&& render_part(gs.subrange(read.len() as int, gs.len() as int), v4) == s@.subrange(pos as int, to as int)
                },
        decreases to - pos,
    {
        let ghost k = read.len() as int;
        proof {
            assert forall|gs: Seq<Seq<char>>, v4: Option<Ipv4Address>|
                all_groups(gs) && (allow_v4 || v4 is None) && part_len(gs, v4) <= 8 && (gs.len() >= 1
                    || v4 is Some) && #[trigger] render_part(gs, v4) == s@.subrange(from as int, to as int)
                implies ({
                    let rest = gs.subrange(k, gs.len() as int);
                    let t = s@.subrange(pos as int, to as int);
                    if k < gs.len() {
                        let g = gs[k];
                        &&& is_group(g)
                        &&& pos + g.len() <= to
                        &&& s@.subrange(pos as int, pos + g.len()) == g
                        &&& (pos + g.len() == to <==> (k + 1 == gs.len() && v4 is None))
                        &&& (pos + g.len() < to ==> s@[pos + g.len()] == ':' && render_part(
                            gs.subrange(k + 1, gs.len() as int),
                            v4,
                        ) == s@.subrange(pos + g.len() + 1, to as int))
                    } else {
                        &&& v4 is Some
                        &&& t == v4.unwrap().text()
                    }
                }) by {
                lemma_part_step(s@, pos as int, to as int, gs, k, v4);
            }
        }
        let (v, e) = match read_group(s, to, pos) {
            Some(x) => x,
            None => {
                proof {
                    assert forall|gs: Seq<Seq<char>>, v4: Option<Ipv4Address>|
                        all_groups(gs) && (allow_v4 || v4 is None) && part_len(gs, v4) <= 8 && (gs.len() >= 1
                            || v4 is Some) && #[trigger] render_part(gs, v4) == s@.subrange(from as int, to as int)
                        implies false by {
                        if k < gs.len() {
                            assert(is_group(gs[k]));
                        } else {
                            let w = v4.unwrap();
                            lemma_v4_start(s@, pos as int, to as int, w);
                        }
                    }
                }
                return None;
            },
        };
        if e < to && s.get_char(e) == '.' {
            if !allow_v4 {
                return None;
            }
            let sub = s.substring_char(pos, to);
            match Ipv4Address::parse(sub) {
                Some(w) => {
                    let hi = (w.a as u16) * 256 + (w.b as u16);
                    let lo = (w.c as u16) * 256 + (w.d as u16);
                    let ghost before = out@;
                    out.push(hi);
                    out.push(lo);
                    proof {
                        assert(out@ =~= part_values(read, Some(w)));
                        if read.len() == 0 {
                            assert(render_part(read, Some(w)) =~= s@.subrange(from as int, to as int));
                        } else {
                            assert(render_part(read, Some(w)) =~= s@.subrange(from as int, to as int));
                        }
                        assert forall|gs: Seq<Seq<char>>, v4: Option<Ipv4Address>|
                            all_groups(gs) && (allow_v4 || v4 is None) && part_len(gs, v4) <= 8 && (gs.len() >= 1
                                || v4 is Some) && #[trigger] render_part(gs, v4) == s@.subrange(from as int, to as int)
                            implies out@ == part_values(gs, v4) by {
                            if k < gs.len() {
                                assert(s@[e as int] == ':' || !is_hex_any(s@[e as int]));
                            } else {
                                let x = v4.unwrap();
                                crate::ip::lemma_parse_format_round_trip(sub@, w);
                                assert(x == w);
                                assert(read =~= gs);
                            }
                        }
                    }
                    return Some(out);
                },
                None => {
                    return None;
                },
            }
        }
        let ghost g = s@.subrange(pos as int, e as int);
        let ghost old_read = read;
        out.push(v);
        proof {
            read = read.push(g);
            assert(group_values(read) =~= group_values(old_read).push(v));
            assert(read.drop_last() =~= old_read);
            assert forall|i: int| 0 <= i < read.len() implies is_group(#[trigger] read[i]) by {
                if i < old_read.len() {
                    assert(read[i] == old_read[i]);
                }
            }
        }
        if e == to {
            proof {
                if old_read.len() == 0 {
                    assert(join_groups(read) == g);
                    assert(g =~= s@.subrange(from as int, to as int));
                } else {
                    assert(join_groups(read) =~= s@.subrange(from as int, to as int));
                }
                assert(render_part(read, None) == s@.subrange(from as int, to as int));
                assert(part_values(read, None) == out@);
                assert forall|gs: Seq<Seq<char>>, v4: Option<Ipv4Address>|
                    all_groups(gs) && (allow_v4 || v4 is None) && part_len(gs, v4) <= 8 && (gs.len() >= 1
                        || v4 is Some) && #[trigger] render_part(gs, v4) == s@.subrange(from as int, to as int)
                    implies out@ == part_values(gs, v4) by {
                    if k < gs.len() {
                        assert(g == gs[k]);
                        assert(read =~= gs);
                    } else {
                        let w = v4.unwrap();
                        lemma_v4_start(s@, pos as int, to as int, w);
                    }
                }
            }
            return Some(out);
        }
        if s.get_char(e) != ':' {
            proof {
                assert forall|gs: Seq<Seq<char>>, v4: Option<Ipv4Address>|
                    all_groups(gs) && (allow_v4 || v4 is None) && part_len(gs, v4) <= 8 && (gs.len() >= 1
                        || v4 is Some) && #[trigger] render_part(gs, v4) == s@.subrange(from as int, to as int)
                    implies false by {
                    if k >= gs.len() {
                        let w = v4.unwrap();
                        lemma_v4_start(s@, pos as int, to as int, w);
                    }
                }
            }
            return None;
        }
        if out.len() >= 8 {
            return None;
        }
        proof {
            if old_read.len() == 0 {
                assert(join_groups(read) == g);
            }
            assert(join_groups(read) + seq![':'] =~= s@.subrange(from as int, e + 1));
            assert forall|gs: Seq<Seq<char>>, v4: Option<Ipv4Address>|
                all_groups(gs) && (allow_v4 || v4 is None) && part_len(gs, v4) <= 8 && (gs.len() >= 1
                    || v4 is Some) && #[trigger] render_part(gs, v4) == s@.subrange(from as int, to as int)
                implies read == gs.subrange(0, read.len() as int) && read.len() <= gs.len() by {
                if k >= gs.len() {
                    let w = v4.unwrap();
                    lemma_v4_start(s@, pos as int, to as int, w);
                }
                assert(g == gs[k]);
                assert(read =~= gs.subrange(0, k + 1));
            }
        }
        pos = e + 1;
    }
}

/// One way of writing an IPv6 address: groups, possibly a `::` standing
/// for one or more zero segments and more groups, and possibly a dotted
/// IPv4 address standing for the last two segments.
pub struct Spelling {
    pub head: Seq<Seq<char>>,
    pub compressed: bool,
    pub tail: Seq<Seq<char>>,
    pub v4: Option<Ipv4Address>,
}

/// The text of a spelling.
pub open spec fn render(sp: Spelling) -> Seq<char> {
    if sp.compressed {
        join_groups(sp.head) + seq![':', ':'] + render_part(sp.tail, sp.v4)
    } else {
        render_part(sp.head, sp.v4)
    }
}

/// Whether a spelling is well formed: groups of one to four digits, eight
/// segments in all, of which `::` stands for at least one.
pub open spec fn valid_spelling(sp: Spelling) -> bool {
    &&& all_groups(sp.head)
    &&& all_groups(sp.tail)
    &&& if sp.compressed {
        sp.head.len() + part_len(sp.tail, sp.v4) <= 7
    } else {
        part_len(sp.head, sp.v4) == 8 && sp.tail.len() == 0
    }
}

/// The eight segments that a spelling writes.
pub open spec fn spelled_segments(sp: Spelling) -> Seq<u16> {
    if sp.compressed {
        group_values(sp.head) + Seq::new(
            (8 - sp.head.len() - part_len(sp.tail, sp.v4)) as nat,
            |i: int| 0u16,
        ) + part_values(sp.tail, sp.v4)
    } else {
        part_values(sp.head, sp.v4)
    }
}

/// Whether `s` is an IPv6 literal for `a`: any spelling of its segments,
/// with hexadecimal digits in either case, leading zeros, zero segments
/// written out or compressed, and a dotted IPv4 tail.
pub open spec fn denotes(s: Seq<char>, a: Ipv6Address) -> bool {
    exists|sp: Spelling|
        valid_spelling(sp) && #[trigger] render(sp) == s && spelled_segments(sp) == a.segments@
}

proof fn lemma_join_groups_shape(gs: Seq<Seq<char>>)
    requires
        all_groups(gs),
    ensures
        forall|i: int| !#[trigger] double_colon_at(join_groups(gs), i),
        forall|i: int| 0 <= i < join_groups(gs).len() ==> join_groups(gs)[i] == ':' || is_hex_any(#[trigger] join_groups(gs)[i]),
        gs.len() >= 1 ==> is_hex_any(join_groups(gs)[0]) && is_hex_any(join_groups(gs).last()),
    decreases gs.len(),
{
    if gs.len() == 0 {
        assert forall|i: int| !#[trigger] double_colon_at(join_groups(gs), i) by {}
    } else if gs.len() == 1 {
        assert(is_group(gs[0]));
        assert forall|i: int| !#[trigger] double_colon_at(join_groups(gs), i) by {
            if double_colon_at(join_groups(gs), i) {
                assert(is_hex_any(gs[0][i]));
            }
        }
    } else {
        let init = gs.drop_last();
        assert forall|i: int| 0 <= i < init.len() implies is_group(#[trigger] init[i]) by {
            assert(init[i] == gs[i]);
        }
        lemma_join_groups_shape(init);
        lemma_join_groups_nonempty(init);
        let h = gs.last();
        assert(is_group(gs[gs.len() - 1]));
        let j = join_groups(init);
        let t = join_groups(gs);
        assert(t =~= j + seq![':'] + h);
        if init.len() == 1 {
            assert(is_group(init[0]));
        }
        assert(j.len() > 0);
        assert forall|i: int| 0 <= i < t.len() implies t[i] == ':' || is_hex_any(#[trigger] t[i]) by {
            if i < j.len() {
                assert(t[i] == j[i]);
            } else if i > j.len() {
                assert(t[i] == h[i - j.len() - 1]);
            }
        }
        assert forall|i: int| !#[trigger] double_colon_at(t, i) by {
            if double_colon_at(t, i) {
                if i + 1 < j.len() {
                    assert(t[i] == j[i] && t[i + 1] == j[i + 1]);
                    assert(double_colon_at(j, i));
                } else if i + 1 == j.len() {
                    assert(t[i] == j.last());
                } else {
                    assert(t[i + 1] == h[i - j.len()]);
                }
            }
        }
        assert(t[0] == j[0]);
        assert(t.last() == h.last());
    }
}

proof fn lemma_part_shape(gs: Seq<Seq<char>>, v4: Option<Ipv4Address>)
    requires
        all_groups(gs),
    ensures
        forall|i: int| !#[trigger] double_colon_at(render_part(gs, v4), i),
        part_len(gs, v4) == 8 ==> exists|i: int| 0 <= i < render_part(gs, v4).len() && #[trigger] render_part(gs, v4)[i] == ':',
{
    lemma_join_groups_shape(gs);
    if gs.len() >= 2 && v4 is None {
        lemma_join_groups_front(gs);
        assert(render_part(gs, v4)[gs[0].len() as int] == ':');
    }
    if let Some(w) = v4 {
        if gs.len() > 0 {
            let j = join_groups(gs);
            let t = render_part(gs, v4);
            lemma_join_groups_nonempty(gs);
            if gs.len() == 1 {
                assert(is_group(gs[0]));
            }
            crate::ip::lemma_text_has_no_colon(w);
            assert(t[j.len() as int] == ':');
            assert forall|i: int| !#[trigger] double_colon_at(t, i) by {
                if double_colon_at(t, i) {
                    if i + 1 < j.len() {
                        assert(t[i] == j[i] && t[i + 1] == j[i + 1]);
                        assert(double_colon_at(j, i));
                    } else if i + 1 == j.len() {
                        assert(t[i] == j.last());
                    } else if i == j.len() {
                        assert(t[i + 1] == w.text()[0]);
                    } else {
                        assert(t[i] == w.text()[i - j.len() - 1]);
                    }
                }
            }
        } else {
            crate::ip::lemma_text_has_no_colon(w);
            assert forall|i: int| !#[trigger] double_colon_at(render_part(gs, v4), i) by {
                if double_colon_at(render_part(gs, v4), i) {
                    assert(w.text()[i] == ':');
                }
            }
        }
    }
}

proof fn lemma_first_double_colon_at(sp: Spelling, t: Seq<char>)
    requires
        valid_spelling(sp),
        sp.compressed,
        t == render(sp),
    ensures
        double_colon_at(t, join_groups(sp.head).len() as int),
        forall|i: int| 0 <= i < join_groups(sp.head).len() ==> !#[trigger] double_colon_at(t, i),
{
    let j = join_groups(sp.head);
    lemma_join_groups_shape(sp.head);
    assert(t[j.len() as int] == ':');
    assert(t[j.len() as int + 1] == ':');
    assert forall|i: int| 0 <= i < j.len() implies !#[trigger] double_colon_at(t, i) by {
        if double_colon_at(t, i) {
            if i + 1 < j.len() {
                assert(t[i] == j[i] && t[i + 1] == j[i + 1]);
                assert(double_colon_at(j, i));
            } else {
                assert(t[i] == j.last());
            }
        }
    }
}

/// The address whose segments are `left`, zeros, then `right`.
fn assemble(left: &Vec<u16>, right: &Vec<u16>) -> (a: Ipv6Address)
    requires
        left@.len() + right@.len() <= 8,
    ensures
        a.segments@ == assembled(left@, right@),
{
    let a = Ipv6Address {
        segments: [
            segment_at(left, right, 0),
            segment_at(left, right, 1),
            segment_at(left, right, 2),
            segment_at(left, right, 3),
            segment_at(left, right, 4),
            segment_at(left, right, 5),
            segment_at(left, right, 6),
            segment_at(left, right, 7),
        ],
    };
    proof {
        assert(a.segments@ =~= assembled(left@, right@));
    }
    a
}

/// Reads a literal whose first `::` stands at `p`.
#[verifier::rlimit(100)]
#[verifier::spinoff_prover]
fn parse_compressed(s: &str, len: usize, p: usize) -> (r: Option<Ipv6Address>)
    requires
        len == s@.len(),
        double_colon_at(s@, p as int),
        forall|i: int| 0 <= i < p ==> !#[trigger] double_colon_at(s@, i),
    ensures
        r matches Some(a) ==> denotes(s@, a),
        forall|a: Ipv6Address| denotes(s@, a) ==> r == Some(a),
{
    let left = match read_part(s, 0, p, false) {
        Some(g) => g,
        None => {
            proof {
                assert forall|a: Ipv6Address| denotes(s@, a) implies false by {
                    let sp = choose|sp: Spelling| valid_spelling(sp) && #[trigger] render(sp) == s@ && spelled_segments(sp) == a.segments@;
                    lemma_compressed_layout(sp, s@, p as int);
                }
            }
            return None;
        },
    };
    let right = match read_part(s, p + 2, len, true) {
        Some(g) => g,
        None => {
            proof {
                assert forall|a: Ipv6Address| denotes(s@, a) implies false by {
                    let sp = choose|sp: Spelling| valid_spelling(sp) && #[trigger] render(sp) == s@ && spelled_segments(sp) == a.segments@;
                    lemma_compressed_layout(sp, s@, p as int);
                }
            }
            return None;
        },
    };
    if left.len() + right.len() > 7 {
        proof {
            assert forall|a: Ipv6Address| denotes(s@, a) implies false by {
                let sp = choose|sp: Spelling| valid_spelling(sp) && #[trigger] render(sp) == s@ && spelled_segments(sp) == a.segments@;
                lemma_compressed_layout(sp, s@, p as int);
            }
        }
        return None;
    }
    let cand = assemble(&left, &right);
    proof {
        let (gl, vl) = choose|gs: Seq<Seq<char>>, v4: Option<Ipv4Address>| {
            &&& all_groups(gs)
            &&& (false || v4 is None)
            &&& part_len(gs, v4) <= 9
            &&& #[trigger] render_part(gs, v4) == s@.subrange(0, p as int)
            &&& part_values(gs, v4) == left@
        };
        let (gr, vr) = choose|gs: Seq<Seq<char>>, v4: Option<Ipv4Address>| {
            &&& all_groups(gs)
            &&& (true || v4 is None)
            &&& part_len(gs, v4) <= 9
            &&& #[trigger] render_part(gs, v4) == s@.subrange(p + 2, len as int)
            &&& part_values(gs, v4) == right@
        };
        let sp = Spelling { head: gl, compressed: true, tail: gr, v4: vr };
        assert(render(sp) =~= s@);
        assert(valid_spelling(sp));
        assert(spelled_segments(sp) =~= cand.segments@);
        assert forall|a: Ipv6Address| denotes(s@, a) implies cand == a by {
            let sq = choose|sq: Spelling| valid_spelling(sq) && #[trigger] render(sq) == s@ && spelled_segments(sq) == a.segments@;
            lemma_compressed_layout(sq, s@, p as int);
            assert(left@ == group_values(sq.head));
            assert(right@ == part_values(sq.tail, sq.v4));
            assert(spelled_segments(sq) =~= cand.segments@);
            assert(cand.segments =~= a.segments);
        }
    }
    Some(cand)
}

/// Reads a literal with no `::`.
#[verifier::rlimit(100)]
#[verifier::spinoff_prover]
fn parse_uncompressed(s: &str, len: usize) -> (r: Option<Ipv6Address>)
    requires
        len == s@.len(),
        forall|i: int| !#[trigger] double_colon_at(s@, i),
    ensures
        r matches Some(a) ==> denotes(s@, a),
        forall|a: Ipv6Address| denotes(s@, a) ==> r == Some(a),
{
    proof {
        assert(s@.subrange(0, len as int) =~= s@);
        assert forall|sp: Spelling| valid_spelling(sp) && #[trigger] render(sp) == s@ implies !sp.compressed by {
            if sp.compressed {
                lemma_first_double_colon_at(sp, s@);
            }
        }
    }
    let all = match read_part(s, 0, len, true) {
        Some(g) => g,
        None => return None,
    };
    if all.len() != 8 {
        return None;
    }
    let none: Vec<u16> = Vec::new();
    let cand = assemble(&all, &none);
    proof {
        let (gl, vl) = choose|gs: Seq<Seq<char>>, v4: Option<Ipv4Address>| {
            &&& all_groups(gs)
            &&& (true || v4 is None)
            &&& part_len(gs, v4) <= 9
            &&& #[trigger] render_part(gs, v4) == s@.subrange(0, len as int)
            &&& part_values(gs, v4) == all@
        };
        let sp = Spelling { head: gl, compressed: false, tail: Seq::empty(), v4: vl };
        assert(render(sp) =~= s@);
        assert(valid_spelling(sp));
        assert(spelled_segments(sp) =~= cand.segments@);
        assert forall|a: Ipv6Address| denotes(s@, a) implies cand == a by {
            let sq = choose|sq: Spelling| valid_spelling(sq) && #[trigger] render(sq) == s@ && spelled_segments(sq) == a.segments@;
            assert(all@ == part_values(sq.head, sq.v4));
            assert(spelled_segments(sq) =~= cand.segments@);
            assert(cand.segments =~= a.segments);
        }
    }
    Some(cand)
}

/// Reads any IPv6 literal.
pub(crate) fn parse_literal(s: &str) -> (r: Option<Ipv6Address>)
    ensures
        r matches Some(a) ==> denotes(s@, a),
        forall|a: Ipv6Address| denotes(s@, a) ==> r == Some(a),
{
    let len = s.unicode_len();
    match find_double_colon(s, len) {
        Some(p) => parse_compressed(s, len, p),
        None => parse_uncompressed(s, len),
    }
}

/// The segments `left`, then zeros, then `right`.
pub open spec fn assembled(left: Seq<u16>, right: Seq<u16>) -> Seq<u16> {
    left + Seq::new((8 - left.len() - right.len()) as nat, |i: int| 0u16) + right
}

proof fn lemma_compressed_layout(sp: Spelling, s: Seq<char>, p: int)
    requires
        valid_spelling(sp),
        render(sp) == s,
        double_colon_at(s, p),
        forall|i: int| 0 <= i < p ==> !#[trigger] double_colon_at(s, i),
    ensures
        sp.compressed,
        p == join_groups(sp.head).len(),
        s.subrange(0, p) == render_part(sp.head, None),
        s.subrange(p + 2, s.len() as int) == render_part(sp.tail, sp.v4),
{
    if !sp.compressed {
        lemma_part_shape(sp.head, sp.v4);
    } else {
        lemma_first_double_colon_at(sp, s);
        let j = join_groups(sp.head).len() as int;
        if p < j {
            assert(double_colon_at(s, p));
        }
        if p > j {
            assert(double_colon_at(s, j));
        }
        assert(s.subrange(0, p) =~= join_groups(sp.head));
        assert(s.subrange(p + 2, s.len() as int) =~= render_part(sp.tail, sp.v4));
    }
}

/// An IPv6 literal holds a colon.
pub proof fn lemma_literal_has_colon(s: Seq<char>, a: Ipv6Address)
    requires
        denotes(s, a),
    ensures
        exists|i: int| 0 <= i < s.len() && #[trigger] s[i] == ':',
{
    let sp = choose|sp: Spelling| valid_spelling(sp) && #[trigger] render(sp) == s && spelled_segments(sp) == a.segments@;
    if sp.compressed {
        lemma_first_double_colon_at(sp, s);
        assert(s[join_groups(sp.head).len() as int] == ':');
    } else {
        lemma_part_shape(sp.head, sp.v4);
    }
}

/// The canonical spellings of segments.
pub open spec fn hexes(xs: Seq<u16>) -> Seq<Seq<char>> {
    xs.map_values(|x: u16| hex(x as nat))
}

proof fn lemma_group_value_lowercase(g: Seq<char>)
    requires
        forall|i: int| 0 <= i < g.len() ==> is_hex(#[trigger] g[i]),
    ensures
        group_value(g) == hex_run_value(g),
    decreases g.len(),
{
    if g.len() > 0 {
        let d = g.drop_last();
        assert forall|i: int| 0 <= i < d.len() implies is_hex(#[trigger] d[i]) by {
            assert(d[i] == g[i]);
        }
        lemma_group_value_lowercase(d);
        assert(is_hex(g[g.len() - 1]));
    }
}

proof fn lemma_hexes(xs: Seq<u16>)
    ensures
        all_groups(hexes(xs)),
        join_groups(hexes(xs)) == join(xs),
        group_values(hexes(xs)) == xs,
    decreases xs.len(),
{
    let hs = hexes(xs);
    assert forall|i: int| 0 <= i < hs.len() implies is_group(#[trigger] hs[i]) by {
        crate::ip6::lemma_hex(xs[i] as nat);
    }
    assert forall|i: int| 0 <= i < xs.len() implies group_values(hs)[i] == xs[i] by {
        crate::ip6::lemma_hex(xs[i] as nat);
        lemma_group_value_lowercase(hex(xs[i] as nat));
    }
    assert(group_values(hs) =~= xs);
    if xs.len() >= 2 {
        lemma_hexes(xs.drop_last());
        assert(hexes(xs.drop_last()) =~= hs.drop_last());
    }
}

/// The canonical text of an address is a literal for that address.
pub proof fn lemma_text_denotes(a: Ipv6Address)
    ensures
        denotes(a.text(), a),
{
    let xs = a.segments@;
    let t = a.text();
    if a.is_mapped() {
        let f = seq!['f', 'f', 'f', 'f'];
        let w = a.mapped_v4();
        let sp = Spelling { head: Seq::empty(), compressed: true, tail: seq![f], v4: Some(w) };
        assert(is_group(f));
        assert(group_value(f) == 0xffff) by {
            reveal_with_fuel(group_value, 5);
            assert(f.drop_last() =~= seq!['f', 'f', 'f']);
            assert(f.drop_last().drop_last() =~= seq!['f', 'f']);
            assert(f.drop_last().drop_last().drop_last() =~= seq!['f']);
            assert(f.drop_last().drop_last().drop_last().drop_last() =~= Seq::<char>::empty());
        }
        assert(join_groups(seq![f]) == f);
        assert(render(sp) =~= t);
        assert(xs[6] == (xs[6] / 256) * 256 + xs[6] % 256);
        assert(xs[7] == (xs[7] / 256) * 256 + xs[7] % 256);
        assert(spelled_segments(sp) =~= xs);
        assert(valid_spelling(sp));
    } else if exists|q: (int, int)| best_run(xs, q.0, q.1) {
        let q = choose|q: (int, int)| best_run(xs, q.0, q.1);
        let pre = xs.subrange(0, q.0);
        let post = xs.subrange(q.0 + q.1, 8);
        lemma_hexes(pre);
        lemma_hexes(post);
        let sp = Spelling { head: hexes(pre), compressed: true, tail: hexes(post), v4: None };
        assert(render(sp) =~= t);
        assert(valid_spelling(sp));
        assert(spelled_segments(sp) =~= xs);
    } else {
        lemma_hexes(xs);
        let sp = Spelling { head: hexes(xs), compressed: false, tail: Seq::empty(), v4: None };
        assert(render(sp) =~= t);
        assert(valid_spelling(sp));
        assert(spelled_segments(sp) =~= xs);
    }
}

} // verus!
