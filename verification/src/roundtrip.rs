//! The round-trip law: a curve configuration written out in the
//! configuration format parses back to exactly the submitted profiles.

use vstd::prelude::*;
use crate::curves::CurvePoint;
use crate::curves::CurveConfLoadingError;
use crate::curves::MAX_SPEED;
use crate::curves::MAX_PROFILE_NAME_LEN;
use crate::curves::is_ws_char;
use crate::curves::is_digit_char;
use crate::curves::digit_of;
use crate::curves::bad_name_char;
use crate::curves::digits_val;
use crate::curves::ws_run;
use crate::curves::tok_run;
use crate::curves::line_end;
use crate::curves::blank_in;
use crate::curves::header_in;
use crate::curves::name_error_in;
use crate::curves::point_line_shape;
use crate::curves::point_temp;
use crate::curves::point_speed;
use crate::curves::parse_block;
use crate::curves::lemma_ws_run_props;
use crate::curves::lemma_tok_run_props;
use crate::curves::lemma_line_end_props;
use crate::curves::lemma_block_end_props;
use crate::curves::block_end;
use crate::curves::sep_at;
use crate::curves::count_nl;
use crate::curves::parse_doc;
use crate::curves::parse_doc_from;

verus! {

/// The character for one decimal digit.
pub open spec fn digit_char(d: nat) -> char {
    if d == 0 {
        '0'
    } else if d == 1 {
        '1'
    } else if d == 2 {
        '2'
    } else if d == 3 {
        '3'
    } else if d == 4 {
        '4'
    } else if d == 5 {
        '5'
    } else if d == 6 {
        '6'
    } else if d == 7 {
        '7'
    } else if d == 8 {
        '8'
    } else {
        '9'
    }
}

/// The decimal digits of `n`, most significant first.
pub open spec fn render_num(n: nat) -> Seq<char>
    decreases n,
{
    if n < 10 {
        seq![digit_char(n)]
    } else {
        render_num(n / 10).push(digit_char(n % 10))
    }
}

/// A rendered number is a non-empty run of digits.
proof fn lemma_render_num_digits(n: nat)
    ensures
        render_num(n).len() >= 1,
        forall|k: int|
            0 <= k < render_num(n).len() ==> is_digit_char(#[trigger] render_num(n)[k]),
    decreases n,
{
    if n >= 10 {
        lemma_render_num_digits(n / 10);
    }
}

/// Two sequences equal on a range give the same digit value over it.
proof fn lemma_digits_val_ext(s1: Seq<char>, s2: Seq<char>, a: int, c: int)
    requires
        c <= s1.len(),
        c <= s2.len(),
        forall|k: int| a <= k < c ==> s1[k] == s2[k],
    ensures
        digits_val(s1, a, c) == digits_val(s2, a, c),
    decreases c - a,
{
    if a < c && 0 <= a {
        lemma_digits_val_ext(s1, s2, a, c - 1);
    }
}

/// The digit value of a range is the digit value of the extracted range.
proof fn lemma_digits_val_shift(s: Seq<char>, a: int, c: int)
    requires
        0 <= a <= c <= s.len(),
    ensures
        digits_val(s, a, c) == digits_val(s.subrange(a, c), 0, c - a),
    decreases c - a,
{
    if a < c {
        lemma_digits_val_shift(s, a, c - 1);
        let t = s.subrange(a, c);
        let t1 = s.subrange(a, c - 1);
        assert(forall|k: int| 0 <= k < c - 1 - a ==> t[k] == t1[k]);
        lemma_digits_val_ext(t, t1, 0, c - 1 - a);
    }
}

/// Reading a rendered number back gives the number.
proof fn lemma_render_num_val(n: nat)
    ensures
        digits_val(render_num(n), 0, render_num(n).len() as int) == n,
    decreases n,
{
    let t = render_num(n);
    if n < 10 {
        assert(digits_val(t, 0, 1) == digits_val(t, 0, 0) * 10 + digit_of(t[0]));
        assert(digit_of(digit_char(n)) == n);
    } else {
        lemma_render_num_val(n / 10);
        let u = render_num(n / 10);
        assert(t == u.push(digit_char(n % 10)));
        assert(t.len() == u.len() + 1);
        assert(forall|k: int| 0 <= k < u.len() ==> t[k] == u[k]);
        lemma_digits_val_ext(t, u, 0, u.len() as int);
        assert(digits_val(t, 0, t.len() as int) == digits_val(t, 0, u.len() as int) * 10
            + digit_of(t[u.len() as int]));
        assert(digit_of(digit_char(n % 10)) == n % 10);
        assert((n / 10) * 10 + n % 10 == n) by (nonlinear_arith);
    }
}

/// A digit is neither whitespace nor a line break nor a bracket.
proof fn lemma_digit_char_plain(c: char)
    requires
        is_digit_char(c),
    ensures
        !is_ws_char(c),
        c != '\n',
        c != '[',
        c != ']',
{
}

/// `ws_run` lands exactly on the first non-whitespace position.
proof fn lemma_ws_run_is(s: Seq<char>, i: int, end: int, m: int)
    requires
        0 <= i <= m <= end <= s.len(),
        forall|k: int| i <= k < m ==> is_ws_char(s[k]),
        m < end ==> !is_ws_char(s[m]),
    ensures
        ws_run(s, i, end) == m,
{
    lemma_ws_run_props(s, i, end);
}

/// `tok_run` lands exactly on the first whitespace position.
proof fn lemma_tok_run_is(s: Seq<char>, i: int, end: int, m: int)
    requires
        0 <= i <= m <= end <= s.len(),
        forall|k: int| i <= k < m ==> !is_ws_char(s[k]),
        m < end ==> is_ws_char(s[m]),
    ensures
        tok_run(s, i, end) == m,
{
    lemma_tok_run_props(s, i, end);
}

/// `line_end` lands exactly on the first line break.
proof fn lemma_line_end_is(s: Seq<char>, p: int, end: int, m: int)
    requires
        0 <= p <= m <= end <= s.len(),
        forall|k: int| p <= k < m ==> s[k] != '\n',
        m < end ==> s[m] == '\n',
    ensures
        line_end(s, p, end) == m,
{
    lemma_line_end_props(s, p, end);
}

/// One curve point written out: the two numbers separated by a space.
pub open spec fn render_point_line(cp: CurvePoint) -> Seq<char> {
    render_num(cp.temperature as nat) + seq![' '] + render_num(cp.speed as nat)
}

/// A rendered point line holds no line break.
proof fn lemma_point_line_no_nl(cp: CurvePoint)
    ensures
        render_point_line(cp).len() >= 3,
        forall|k: int|
            0 <= k < render_point_line(cp).len() ==> #[trigger] render_point_line(cp)[k] != '\n',
{
    let rt = render_num(cp.temperature as nat);
    let rs = render_num(cp.speed as nat);
    let l = render_point_line(cp);
    lemma_render_num_digits(cp.temperature as nat);
    lemma_render_num_digits(cp.speed as nat);
    assert forall|k: int| 0 <= k < l.len() implies l[k] != '\n' by {
        if k < rt.len() {
            lemma_digit_char_plain(rt[k]);
        } else if k == rt.len() {
        } else {
            lemma_digit_char_plain(rs[k - rt.len() - 1]);
        }
    }
}

/// A rendered point line parses back to its point's two numbers.
proof fn lemma_point_line_parses(s: Seq<char>, p: int, q: int, cp: CurvePoint)
    requires
        0 <= p <= q <= s.len(),
        s.subrange(p, q) == render_point_line(cp),
    ensures
        !blank_in(s, p, q),
        !header_in(s, p, q),
        point_line_shape(s, p, q),
        point_temp(s, p, q) == cp.temperature as nat,
        point_speed(s, p, q) == cp.speed as nat,
{
    let rt = render_num(cp.temperature as nat);
    let rs = render_num(cp.speed as nat);
    let l = render_point_line(cp);
    lemma_render_num_digits(cp.temperature as nat);
    lemma_render_num_digits(cp.speed as nat);
    assert(q - p == l.len());
    assert(forall|k: int| 0 <= k < l.len() ==> s[p + k] == l[k]);
    let m1 = p + rt.len();
    let m2 = m1 + 1;
    let m3 = q;
    assert(forall|k: int| 0 <= k < rt.len() ==> l[k] == rt[k]);
    assert(l[rt.len() as int] == ' ');
    assert(forall|k: int| 0 <= k < rs.len() ==> l[rt.len() + 1 + k] == rs[k]);
    // every character of the two digit runs is a digit, hence not whitespace
    assert forall|k: int| p <= k < m1 implies is_digit_char(s[k]) && !is_ws_char(s[k]) by {
        assert(s[k] == rt[k - p]);
        lemma_digit_char_plain(rt[k - p]);
    }
    assert forall|k: int| m2 <= k < m3 implies is_digit_char(s[k]) && !is_ws_char(s[k]) by {
        assert(s[k] == rs[k - m2]);
        lemma_digit_char_plain(rs[k - m2]);
    }
    assert(s[m1 as int] == ' ');
    lemma_ws_run_is(s, p, q, p);
    lemma_tok_run_is(s, p, q, m1);
    lemma_ws_run_is(s, m1, q, m2);
    lemma_tok_run_is(s, m2, q, m3);
    lemma_ws_run_is(s, m3, q, m3);
    assert(s.subrange(p, m1) =~= rt);
    lemma_digits_val_shift(s, p, m1);
    lemma_render_num_val(cp.temperature as nat);
    assert(digits_val(s, p, m1) == cp.temperature as nat);
    assert(s.subrange(m2, m3) =~= rs);
    lemma_digits_val_shift(s, m2, m3);
    lemma_render_num_val(cp.speed as nat);
    assert(digits_val(s, m2, m3) == cp.speed as nat);
    assert(!is_ws_char(s[p]));
    assert(s[p] != '[');
}

/// The point lines of a curve, joined by line breaks, without a trailing
/// break.
pub open spec fn render_points(pts: Seq<CurvePoint>) -> Seq<char>
    decreases pts.len(),
{
    if pts.len() == 0 {
        Seq::empty()
    } else if pts.len() == 1 {
        render_point_line(pts[0])
    } else {
        render_point_line(pts[0]) + seq!['\n'] + render_points(pts.drop_first())
    }
}

/// Every speed of the curve is within the accepted percentage range.
pub open spec fn wf_points(pts: Seq<CurvePoint>) -> bool {
    forall|k: int| 0 <= k < pts.len() ==> (#[trigger] pts[k]).speed <= MAX_SPEED
}

/// Rendered points parse back, appended in order to what was gathered.
proof fn lemma_points_parse(
    b: Seq<char>,
    p: int,
    lidx: int,
    name: Option<Seq<char>>,
    acc: Seq<CurvePoint>,
    pts: Seq<CurvePoint>,
)
    requires
        0 <= p <= b.len(),
        b.subrange(p, b.len() as int) == render_points(pts),
        wf_points(pts),
    ensures
        parse_block(b, p, lidx, name, acc) == Ok::<_, CurveConfLoadingError>((name, acc + pts)),
    decreases pts.len(),
{
    let n = b.len() as int;
    if pts.len() == 0 {
        assert(n - p == 0);
        assert(acc + pts =~= acc);
    } else {
        let cp = pts[0];
        let l = render_point_line(cp);
        let suffix = b.subrange(p, n);
        lemma_point_line_no_nl(cp);
        let q = p + l.len();
        if pts.len() == 1 {
            assert(suffix == l);
            assert(q == n);
            assert forall|k: int| p <= k < q implies b[k] != '\n' by {
                assert(b[k] == l[k - p]);
            }
            lemma_line_end_is(b, p, n, q);
            assert(b.subrange(p, q) =~= l);
            lemma_point_line_parses(b, p, q, cp);
            let newpt = CurvePoint {
                temperature: point_temp(b, p, q) as u32,
                speed: point_speed(b, p, q) as u32,
            };
            assert(newpt == cp);
            assert(parse_block(b, q + 1, lidx + 1, name, acc.push(cp)) == Ok::<
                _,
                CurveConfLoadingError,
            >((name, acc.push(cp))));
            assert(acc + pts =~= acc.push(cp));
        } else {
            let rest = pts.drop_first();
            let tail = render_points(rest);
            assert(suffix == l + seq!['\n'] + tail);
            assert(q < n);
            assert forall|k: int| p <= k < q implies b[k] != '\n' by {
                assert(b[k] == suffix[k - p]);
                assert(suffix[k - p] == l[k - p]);
            }
            assert(b[q] == suffix[q - p]);
            assert(suffix[l.len() as int] == '\n');
            lemma_line_end_is(b, p, n, q);
            assert(b.subrange(p, q) =~= l);
            lemma_point_line_parses(b, p, q, cp);
            let newpt = CurvePoint {
                temperature: point_temp(b, p, q) as u32,
                speed: point_speed(b, p, q) as u32,
            };
            assert(newpt == cp);
            assert forall|k: int| 0 <= k < n - q - 1 implies b[q + 1 + k] == tail[k] by {
                assert(b[q + 1 + k] == suffix[q + 1 + k - p]);
                assert(suffix[l.len() + 1 + k] == tail[k]);
            }
            assert(b.subrange(q + 1, n) =~= tail);
            assert(wf_points(rest));
            lemma_points_parse(b, q + 1, lidx + 1, name, acc.push(cp), rest);
            assert(acc.push(cp) + rest =~= acc + pts);
        }
    }
}

/// A name the parser accepts: non-empty, within the length bound, free
/// of control characters and brackets.
pub open spec fn good_name(nm: Seq<char>) -> bool {
    1 <= nm.len() <= MAX_PROFILE_NAME_LEN && forall|k: int|
        0 <= k < nm.len() ==> !bad_name_char(#[trigger] nm[k])
}

/// One block written out: the header line when the profile is named,
/// then the point lines.
pub open spec fn render_block(name: Option<Seq<char>>, pts: Seq<CurvePoint>) -> Seq<char> {
    match name {
        None => render_points(pts),
        Some(nm) => seq!['['] + nm + seq![']'] + (if pts.len() == 0 {
            Seq::<char>::empty()
        } else {
            seq!['\n'] + render_points(pts)
        }),
    }
}

/// A block the parser accepts: a good name, if any, and speeds in range.
pub open spec fn good_block(name: Option<Seq<char>>, pts: Seq<CurvePoint>) -> bool {
    &&& match name {
        Some(nm) => good_name(nm),
        None => true,
    }
    &&& wf_points(pts)
}

/// A rendered block parses back to its name and points.
proof fn lemma_block_parses(b: Seq<char>, lidx: int, name: Option<Seq<char>>, pts: Seq<CurvePoint>)
    requires
        b == render_block(name, pts),
        good_block(name, pts),
    ensures
        parse_block(b, 0, lidx, None, Seq::empty()) == Ok::<_, CurveConfLoadingError>((name, pts)),
{
    let n = b.len() as int;
    assert(b.subrange(0, n) =~= b);
    match name {
        None => {
            lemma_points_parse(b, 0, lidx, None, Seq::empty(), pts);
            assert(Seq::<CurvePoint>::empty() + pts =~= pts);
        },
        Some(nm) => {
            let hl = seq!['['] + nm + seq![']'];
            let q = hl.len() as int;
            assert forall|k: int| 0 <= k < q implies b[k] == hl[k] by {
                if pts.len() == 0 {
                } else {
                    assert(b[k] == (hl + (seq!['\n'] + render_points(pts)))[k]);
                }
            }
            assert forall|k: int| 0 <= k < q implies b[k] != '\n' by {
                assert(b[k] == hl[k]);
                if 1 <= k < q - 1 {
                    assert(hl[k] == nm[k - 1]);
                    assert(!bad_name_char(nm[k - 1]));
                }
            }
            if pts.len() == 0 {
                assert(n == q);
            } else {
                assert(b[q] == '\n');
            }
            lemma_line_end_is(b, 0, n, q);
            assert(b[0] == '[');
            assert(b[q - 1] == ']');
            assert(!blank_in(b, 0, q));
            assert(header_in(b, 0, q));
            assert forall|k: int| 1 <= k < q - 1 implies !bad_name_char(b[k]) by {
                assert(b[k] == hl[k]);
                assert(hl[k] == nm[k - 1]);
            }
            assert(name_error_in(b, 1, q - 1) is None);
            assert(b.subrange(1, q - 1) =~= nm);
            if pts.len() == 0 {
                assert(parse_block(b, q + 1, lidx + 1, Some(nm), Seq::<CurvePoint>::empty())
                    == Ok::<_, CurveConfLoadingError>((Some(nm), Seq::<CurvePoint>::empty())));
                assert(pts =~= Seq::<CurvePoint>::empty());
            } else {
                let tail = render_points(pts);
                assert forall|k: int| 0 <= k < n - q - 1 implies b[q + 1 + k] == tail[k] by {
                    assert(b[q + 1 + k] == (hl + (seq!['\n'] + tail))[q + 1 + k]);
                }
                assert(b.subrange(q + 1, n) =~= tail);
                lemma_points_parse(b, q + 1, lidx + 1, Some(nm), Seq::empty(), pts);
                assert(Seq::<CurvePoint>::empty() + pts =~= pts);
            }
        },
    }
}

/// No pair of adjacent line breaks inside `t`.
spec fn no_sep_inside(t: Seq<char>) -> bool {
    forall|j: int| 0 <= j < t.len() - 1 ==> !(#[trigger] t[j] == '\n' && t[j + 1] == '\n')
}

/// A non-empty `t` neither starts nor ends with a line break.
spec fn nl_free_ends(t: Seq<char>) -> bool {
    t.len() == 0 || (t[0] != '\n' && t.last() != '\n')
}

/// Rendered points hold no separator and no break at either end.
proof fn lemma_render_points_shape(pts: Seq<CurvePoint>)
    ensures
        no_sep_inside(render_points(pts)),
        nl_free_ends(render_points(pts)),
    decreases pts.len(),
{
    if pts.len() == 0 {
    } else if pts.len() == 1 {
        lemma_point_line_no_nl(pts[0]);
        let t = render_points(pts);
        assert forall|j: int| 0 <= j < t.len() - 1 implies !(#[trigger] t[j] == '\n' && t[j + 1] == '\n') by {
            assert(t[j] != '\n');
        }
    } else {
        let l = render_point_line(pts[0]);
        let tail = render_points(pts.drop_first());
        let t = render_points(pts);
        lemma_point_line_no_nl(pts[0]);
        lemma_render_points_shape(pts.drop_first());
        assert(t == l + seq!['\n'] + tail);
        assert(tail.len() >= 1);
        assert(t[0] == l[0]);
        assert(t.last() == tail.last());
        assert forall|j: int| 0 <= j < t.len() - 1 implies !(#[trigger] t[j] == '\n' && t[j + 1] == '\n') by {
            let m = l.len() as int;
            if j + 1 < m {
                assert(t[j] == l[j]);
            } else if j + 1 == m {
                assert(t[j] == l[j]);
            } else if j == m {
                assert(t[j + 1] == tail[0]);
            } else {
                assert(t[j] == tail[j - m - 1]);
                assert(t[j + 1] == tail[j - m]);
            }
        }
    }
}

/// A rendered block holds no separator and no break at either end.
proof fn lemma_render_block_shape(name: Option<Seq<char>>, pts: Seq<CurvePoint>)
    requires
        good_block(name, pts),
    ensures
        no_sep_inside(render_block(name, pts)),
        nl_free_ends(render_block(name, pts)),
{
    lemma_render_points_shape(pts);
    match name {
        None => {
        },
        Some(nm) => {
            let hl = seq!['['] + nm + seq![']'];
            let t = render_block(name, pts);
            let body = render_points(pts);
            assert forall|k: int| 0 <= k < hl.len() implies hl[k] != '\n' by {
                if 1 <= k < hl.len() - 1 {
                    assert(hl[k] == nm[k - 1]);
                    assert(!bad_name_char(nm[k - 1]));
                }
            }
            if pts.len() == 0 {
                assert(t =~= hl);
                assert forall|j: int| 0 <= j < t.len() - 1 implies !(#[trigger] t[j] == '\n' && t[j + 1]
                    == '\n') by {
                    assert(t[j] != '\n');
                }
            } else {
                let m = hl.len() as int;
                assert(t == hl + (seq!['\n'] + body));
                assert(t[0] == hl[0]);
                assert(t.last() == body.last());
                assert(body.len() >= 1);
                assert forall|j: int| 0 <= j < t.len() - 1 implies !(#[trigger] t[j] == '\n' && t[j + 1]
                    == '\n') by {
                    if j + 1 < m {
                        assert(t[j] == hl[j]);
                    } else if j + 1 == m {
                        assert(t[j] == hl[j]);
                    } else if j == m {
                        assert(t[j + 1] == body[0]);
                    } else {
                        assert(t[j] == body[j - m - 1]);
                        assert(t[j + 1] == body[j - m]);
                    }
                }
            }
        },
    }
}

} // verus!

verus! {

/// A whole configuration written out: the blocks joined by blank lines.
pub open spec fn render_doc(blocks: Seq<(Option<Seq<char>>, Seq<CurvePoint>)>) -> Seq<char>
    decreases blocks.len(),
{
    if blocks.len() == 0 {
        Seq::empty()
    } else if blocks.len() == 1 {
        render_block(blocks[0].0, blocks[0].1)
    } else {
        render_block(blocks[0].0, blocks[0].1) + seq!['\n', '\n'] + render_doc(blocks.drop_first())
    }
}

/// Every block of the list is one the parser accepts.
pub open spec fn good_blocks(blocks: Seq<(Option<Seq<char>>, Seq<CurvePoint>)>) -> bool {
    forall|k: int| 0 <= k < blocks.len() ==> good_block((#[trigger] blocks[k]).0, blocks[k].1)
}

/// The blocks inserted into `acc` in order, later names overwriting.
pub open spec fn insert_blocks(
    acc: Map<Option<Seq<char>>, Seq<CurvePoint>>,
    blocks: Seq<(Option<Seq<char>>, Seq<CurvePoint>)>,
) -> Map<Option<Seq<char>>, Seq<CurvePoint>>
    decreases blocks.len(),
{
    if blocks.len() == 0 {
        acc
    } else {
        insert_blocks(acc.insert(blocks[0].0, blocks[0].1), blocks.drop_first())
    }
}

/// A rendered document parses back to its blocks, inserted in order.
proof fn lemma_doc_parses(
    s: Seq<char>,
    i: int,
    lidx: int,
    acc: Map<Option<Seq<char>>, Seq<CurvePoint>>,
    blocks: Seq<(Option<Seq<char>>, Seq<CurvePoint>)>,
)
    requires
        0 <= i <= s.len(),
        s.subrange(i, s.len() as int) == render_doc(blocks),
        good_blocks(blocks),
        blocks.len() >= 1,
    ensures
        parse_doc_from(s, i, lidx, acc) == Ok::<_, CurveConfLoadingError>(
            insert_blocks(acc, blocks),
        ),
    decreases blocks.len(),
{
    let n = s.len() as int;
    let name = blocks[0].0;
    let pts = blocks[0].1;
    let bt = render_block(name, pts);
    let j = i + bt.len();
    let suffix = s.subrange(i, n);
    assert(good_block(name, pts));
    lemma_render_block_shape(name, pts);
    if blocks.len() == 1 {
        assert(suffix == bt);
        assert(j == n);
    } else {
        let tail = render_doc(blocks.drop_first());
        assert(suffix == bt + seq!['\n', '\n'] + tail);
        assert(s[j] == suffix[j - i]);
        assert(s[j + 1] == suffix[j + 1 - i]);
        assert(s[j] == '\n');
        assert(s[j + 1] == '\n');
        assert(j + 1 < n);
    }
    assert forall|k: int| 0 <= k < bt.len() implies s[i + k] == #[trigger] bt[k] by {
        assert(s[i + k] == suffix[k]);
        if blocks.len() > 1 {
            assert(suffix[k] == (bt + seq!['\n', '\n'] + render_doc(blocks.drop_first()))[k]);
        }
    }
    lemma_block_end_props(s, i);
    assert forall|m: int| i <= m < j implies !sep_at(s, m) by {
        if m + 1 < j {
            assert(s[m] == bt[m - i]);
            assert(s[m + 1] == bt[m - i + 1]);
            assert(!(bt[m - i] == '\n' && bt[m - i + 1] == '\n'));
        } else {
            assert(m == j - 1);
            assert(s[m] == bt[m - i]);
            assert(bt[bt.len() - 1] != '\n');
        }
    }
    let be = block_end(s, i);
    assert(be == j) by {
        if be < j {
            assert(!sep_at(s, be));
            assert(be < n);
        } else if be > j {
            if j < n {
                assert(i <= j < be);
                assert(!sep_at(s, j));
            }
        }
    }
    let b = s.subrange(i, j);
    assert(b =~= bt);
    lemma_block_parses(b, lidx, name, pts);
    if blocks.len() == 1 {
        assert(parse_doc_from(s, i, lidx, acc) == Ok::<_, CurveConfLoadingError>(
            acc.insert(name, pts),
        ));
        assert(insert_blocks(acc, blocks) == insert_blocks(acc.insert(name, pts), blocks.drop_first()));
        assert(blocks.drop_first().len() == 0);
    } else {
        let rest = blocks.drop_first();
        let tail = render_doc(rest);
        assert forall|k: int| 0 <= k < n - j - 2 implies s[j + 2 + k] == tail[k] by {
            assert(s[j + 2 + k] == suffix[j + 2 + k - i]);
            assert(suffix[bt.len() + 2 + k] == tail[k]);
        }
        assert(s.subrange(j + 2, n) =~= tail);
        assert(good_blocks(rest)) by {
            assert(forall|k: int| 0 <= k < rest.len() ==> #[trigger] rest[k] == blocks[k + 1]);
        }
        lemma_doc_parses(s, j + 2, lidx + count_nl(s, i, j) + 2, acc.insert(name, pts), rest);
    }
}

/// Inserting blocks whose names all differ from `key` leaves `key`'s
/// binding alone.
proof fn lemma_insert_blocks_other(
    acc: Map<Option<Seq<char>>, Seq<CurvePoint>>,
    blocks: Seq<(Option<Seq<char>>, Seq<CurvePoint>)>,
    key: Option<Seq<char>>,
)
    requires
        forall|k: int| 0 <= k < blocks.len() ==> (#[trigger] blocks[k]).0 != key,
    ensures
        insert_blocks(acc, blocks).contains_key(key) == acc.contains_key(key),
        acc.contains_key(key) ==> insert_blocks(acc, blocks)[key] == acc[key],
    decreases blocks.len(),
{
    if blocks.len() > 0 {
        let rest = blocks.drop_first();
        assert(forall|k: int| 0 <= k < rest.len() ==> #[trigger] rest[k] == blocks[k + 1]);
        lemma_insert_blocks_other(acc.insert(blocks[0].0, blocks[0].1), rest, key);
    }
}

/// With distinct names, every block's points come out under its name.
proof fn lemma_insert_blocks_found(
    acc: Map<Option<Seq<char>>, Seq<CurvePoint>>,
    blocks: Seq<(Option<Seq<char>>, Seq<CurvePoint>)>,
    k: int,
)
    requires
        0 <= k < blocks.len(),
        forall|x: int, y: int|
            0 <= x < y < blocks.len() ==> (#[trigger] blocks[x]).0 != (#[trigger] blocks[y]).0,
    ensures
        insert_blocks(acc, blocks).contains_key(blocks[k].0),
        insert_blocks(acc, blocks)[blocks[k].0] == blocks[k].1,
    decreases blocks.len(),
{
    let rest = blocks.drop_first();
    assert(forall|m: int| 0 <= m < rest.len() ==> #[trigger] rest[m] == blocks[m + 1]);
    if k == 0 {
        assert(forall|m: int| 0 <= m < rest.len() ==> (#[trigger] rest[m]).0 != blocks[0].0);
        lemma_insert_blocks_other(acc.insert(blocks[0].0, blocks[0].1), rest, blocks[0].0);
    } else {
        lemma_insert_blocks_found(acc.insert(blocks[0].0, blocks[0].1), rest, k - 1);
        assert(rest[k - 1] == blocks[k]);
    }
}

/// The round-trip law: any valid list of profile blocks — speeds within
/// range, names acceptable and distinct — written out in the
/// configuration format parses back without error, and the parsed map
/// holds, under every submitted profile name, exactly the submitted
/// points in their original order.
pub proof fn lemma_parse_render_round_trip(blocks: Seq<(Option<Seq<char>>, Seq<CurvePoint>)>)
    requires
        blocks.len() >= 1,
        good_blocks(blocks),
        forall|x: int, y: int|
            0 <= x < y < blocks.len() ==> (#[trigger] blocks[x]).0 != (#[trigger] blocks[y]).0,
    ensures
        parse_doc(render_doc(blocks), Map::empty()) is Ok,
        forall|k: int|
            0 <= k < blocks.len() ==> parse_doc(render_doc(blocks), Map::empty())->Ok_0.contains_key(
                (#[trigger] blocks[k]).0,
            ) && parse_doc(render_doc(blocks), Map::empty())->Ok_0[blocks[k].0] == blocks[k].1,
{
    let s = render_doc(blocks);
    assert(s.subrange(0, s.len() as int) =~= s);
    lemma_doc_parses(s, 0, 0, Map::empty(), blocks);
    assert forall|k: int| 0 <= k < blocks.len() implies parse_doc(
        render_doc(blocks),
        Map::empty(),
    )->Ok_0.contains_key((#[trigger] blocks[k]).0) && parse_doc(
        render_doc(blocks),
        Map::empty(),
    )->Ok_0[blocks[k].0] == blocks[k].1 by {
        lemma_insert_blocks_found(Map::empty(), blocks, k);
    }
}

} // verus!
