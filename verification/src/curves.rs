use vstd::prelude::*;
use vstd::string::StrSliceExecFns;
use vstd::string::StringExecFns;
use crate::config_readers::ConfReader;
use crate::config_readers::ConfReaderError;

verus! {

/// One entry of a fan curve: at or above `temperature` degrees the fan
/// should run at `speed` percent.
#[derive(Clone, Copy, Debug, PartialEq, Eq, Structural)]
pub struct CurvePoint {
    pub temperature: u32,
    pub speed: u32,
}

/// The speed of a curve point is a percentage and may not exceed this.
pub const MAX_SPEED: u32 = 100;

/// Error for a curve point whose speed percentage is above [`MAX_SPEED`].
#[derive(Clone, Copy, Debug, PartialEq, Eq, Structural)]
pub struct SpeedTooHighError {
    pub value: u32,
}

impl CurvePoint {
    /// Builds a curve point, rejecting speeds above 100 percent.
    pub fn new(temperature: u32, speed: u32) -> (r: Result<CurvePoint, SpeedTooHighError>)
        ensures
            match r {
                Ok(p) => speed <= MAX_SPEED && p.temperature == temperature && p.speed == speed,
                Err(e) => speed > MAX_SPEED && e.value == speed,
            },
    {
        if speed > MAX_SPEED {
            Err(SpeedTooHighError { value: speed })
        } else {
            Ok(CurvePoint { temperature, speed })
        }
    }
}

/// What is wrong with a profile name between brackets.
#[derive(Clone, Copy, Debug, PartialEq, Eq, Structural)]
pub enum InvalidProfileNameError {
    Empty,
    TooBig,
    WrongCharacters,
}

/// Why a configuration text was rejected. Line numbers are 1-based over
/// the whole document.
#[derive(Clone, Copy, Debug, PartialEq, Eq, Structural)]
pub enum CurveConfLoadingError {
    UnexpectedEmptyLine(usize),
    UnexpectedCharacter(usize),
    InvalidCurvePoint(u32),
    InvalidProfileName(InvalidProfileNameError),
}

/// A profile name may not be longer than this many characters.
pub const MAX_PROFILE_NAME_LEN: usize = 64;

// ---------------------------------------------------------------------------
// The grammar, stated over sequences of characters.
//
// A document is a list of blocks separated by the first-found pairs of
// adjacent line breaks. A block is a list of lines, each either a
// `[name]` header, or two whitespace-separated unsigned integers forming
// a curve point. The functions below state that grammar over `Seq<char>`;
// the executable parser is proved against them.
// ---------------------------------------------------------------------------

/// Whitespace inside a line: space, tab or carriage return.
pub open spec fn is_ws_char(c: char) -> bool {
    c == ' ' || c == '\t' || c == '\r'
}

/// An ASCII decimal digit.
pub open spec fn is_digit_char(c: char) -> bool {
    48 <= c as u32 <= 57
}

/// The numeric value of a digit character.
pub open spec fn digit_of(c: char) -> nat {
    (c as u32 - 48) as nat
}

/// Characters a profile name may not contain: control characters and the
/// brackets that delimit the header itself.
pub open spec fn bad_name_char(c: char) -> bool {
    (c as u32) < 32 || c as u32 == 127 || c == '[' || c == ']'
}

/// A pair of adjacent line breaks at `j`: the block separator.
pub open spec fn sep_at(s: Seq<char>, j: int) -> bool {
    0 <= j && j + 1 < s.len() && s[j] == '\n' && s[j + 1] == '\n'
}

/// The end of the block that starts at `i`: the first separator at or
/// after `i`, or the end of the document.
pub open spec fn block_end(s: Seq<char>, i: int) -> int
    decreases s.len() - i,
{
    if i < 0 {
        0
    } else if i + 1 >= s.len() {
        s.len() as int
    } else if s[i] == '\n' && s[i + 1] == '\n' {
        i
    } else {
        block_end(s, i + 1)
    }
}

/// The end of the line that starts at `p`: the first line break before
/// `end`, or `end` itself.
pub open spec fn line_end(s: Seq<char>, p: int, end: int) -> int
    decreases end - p,
{
    if p < 0 || p >= end || end > s.len() {
        end
    } else if s[p] == '\n' {
        p
    } else {
        line_end(s, p + 1, end)
    }
}

/// The first index in `[i, end)` that does not hold whitespace.
pub open spec fn ws_run(s: Seq<char>, i: int, end: int) -> int
    decreases end - i,
{
    if i < 0 || i >= end || end > s.len() {
        i
    } else if is_ws_char(s[i]) {
        ws_run(s, i + 1, end)
    } else {
        i
    }
}

/// The first index in `[i, end)` that holds whitespace.
pub open spec fn tok_run(s: Seq<char>, i: int, end: int) -> int
    decreases end - i,
{
    if i < 0 || i >= end || end > s.len() {
        i
    } else if !is_ws_char(s[i]) {
        tok_run(s, i + 1, end)
    } else {
        i
    }
}

/// Every character of `[a, c)` is a decimal digit.
pub open spec fn all_digits(s: Seq<char>, a: int, c: int) -> bool {
    forall|k: int| a <= k < c ==> is_digit_char(s[k])
}

/// The number the digit run `[a, c)` denotes, most significant first.
pub open spec fn digits_val(s: Seq<char>, a: int, c: int) -> nat
    decreases c - a,
{
    if c <= a || a < 0 || c > s.len() {
        0
    } else {
        digits_val(s, a, c - 1) * 10 + digit_of(s[c - 1])
    }
}

/// The number of line breaks in `[i, j)`.
pub open spec fn count_nl(s: Seq<char>, i: int, j: int) -> int
    decreases j - i,
{
    if i >= j || i < 0 || j > s.len() {
        0
    } else {
        (if s[i] == '\n' {
            1int
        } else {
            0int
        }) + count_nl(s, i + 1, j)
    }
}

/// A line of nothing but whitespace, the empty line included.
pub open spec fn blank_in(s: Seq<char>, p: int, q: int) -> bool {
    forall|k: int| p <= k < q ==> is_ws_char(s[k])
}

/// A header line: it opens with `[` and closes with `]`.
pub open spec fn header_in(s: Seq<char>, p: int, q: int) -> bool {
    p < q && s[p] == '[' && s[q - 1] == ']'
}

/// What is wrong with the profile name `[a, c)`, if anything: it may not
/// be empty, longer than [`MAX_PROFILE_NAME_LEN`], or contain a control
/// character or bracket.
pub open spec fn name_error_in(s: Seq<char>, a: int, c: int) -> Option<InvalidProfileNameError> {
    if c <= a {
        Some(InvalidProfileNameError::Empty)
    } else if c - a > MAX_PROFILE_NAME_LEN as int {
        Some(InvalidProfileNameError::TooBig)
    } else if exists|k: int| a <= k < c && bad_name_char(s[k]) {
        Some(InvalidProfileNameError::WrongCharacters)
    } else {
        None
    }
}

/// The line `[p, q)` is exactly two whitespace-separated digit runs, each
/// denoting a number a `u32` can hold.
pub open spec fn point_line_shape(s: Seq<char>, p: int, q: int) -> bool {
    let t0 = ws_run(s, p, q);
    let t1 = tok_run(s, t0, q);
    let t2 = ws_run(s, t1, q);
    let t3 = tok_run(s, t2, q);
    let t4 = ws_run(s, t3, q);
    t0 < t1 && t2 < t3 && t4 == q && all_digits(s, t0, t1) && all_digits(s, t2, t3) && digits_val(
        s,
        t0,
        t1,
    ) <= u32::MAX as nat && digits_val(s, t2, t3) <= u32::MAX as nat
}

/// The temperature threshold a point line denotes: its first number.
pub open spec fn point_temp(s: Seq<char>, p: int, q: int) -> nat {
    let t0 = ws_run(s, p, q);
    digits_val(s, t0, tok_run(s, t0, q))
}

/// The speed a point line denotes: its second number.
pub open spec fn point_speed(s: Seq<char>, p: int, q: int) -> nat {
    let t0 = ws_run(s, p, q);
    let t1 = tok_run(s, t0, q);
    let t2 = ws_run(s, t1, q);
    digits_val(s, t2, tok_run(s, t2, q))
}

/// `line_end` stays within `[p, end]`, stops at a line break, and skips
/// none.
pub proof fn lemma_line_end_props(s: Seq<char>, p: int, end: int)
    requires
        0 <= p <= end <= s.len(),
    ensures
        p <= line_end(s, p, end) <= end,
        line_end(s, p, end) < end ==> s[line_end(s, p, end)] == '\n',
        forall|k: int| p <= k < line_end(s, p, end) ==> s[k] != '\n',
    decreases end - p,
{
    if p < end && s[p] != '\n' {
        lemma_line_end_props(s, p + 1, end);
    }
}

/// `block_end` stays within `[i, len]`, stops at a separator, and skips
/// none.
pub proof fn lemma_block_end_props(s: Seq<char>, i: int)
    requires
        0 <= i <= s.len(),
    ensures
        i <= block_end(s, i) <= s.len(),
        block_end(s, i) < s.len() ==> sep_at(s, block_end(s, i)),
        forall|j: int| i <= j < block_end(s, i) ==> !sep_at(s, j),
    decreases s.len() - i,
{
    if i + 1 < s.len() && !(s[i] == '\n' && s[i + 1] == '\n') {
        lemma_block_end_props(s, i + 1);
    }
}

/// `ws_run` stays within `[i, end]`, stops at non-whitespace, and skips
/// only whitespace.
pub proof fn lemma_ws_run_props(s: Seq<char>, i: int, end: int)
    requires
        0 <= i <= end <= s.len(),
    ensures
        i <= ws_run(s, i, end) <= end,
        ws_run(s, i, end) < end ==> !is_ws_char(s[ws_run(s, i, end)]),
        forall|k: int| i <= k < ws_run(s, i, end) ==> is_ws_char(s[k]),
    decreases end - i,
{
    if i < end && is_ws_char(s[i]) {
        lemma_ws_run_props(s, i + 1, end);
    }
}

/// `tok_run` stays within `[i, end]`, stops at whitespace, and skips only
/// non-whitespace.
pub proof fn lemma_tok_run_props(s: Seq<char>, i: int, end: int)
    requires
        0 <= i <= end <= s.len(),
    ensures
        i <= tok_run(s, i, end) <= end,
        tok_run(s, i, end) < end ==> is_ws_char(s[tok_run(s, i, end)]),
        forall|k: int| i <= k < tok_run(s, i, end) ==> !is_ws_char(s[k]),
    decreases end - i,
{
    if i < end && !is_ws_char(s[i]) {
        lemma_tok_run_props(s, i + 1, end);
    }
}

/// A digit run's value only grows as the run is extended to the right.
pub proof fn lemma_digits_val_mono(s: Seq<char>, a: int, c1: int, c2: int)
    requires
        a <= c1 <= c2 <= s.len(),
    ensures
        digits_val(s, a, c1) <= digits_val(s, a, c2),
    decreases c2 - c1,
{
    if c1 < c2 {
        lemma_digits_val_mono(s, a, c1, c2 - 1);
        assert(digits_val(s, a, c2 - 1) <= digits_val(s, a, c2 - 1) * 10) by (nonlinear_arith);
    }
}

/// One block of the configuration, parsed line by line from `p` with the
/// name and points gathered so far. `lidx` is the 0-based document line
/// index of the line at `p`; errors carry it 1-based.
pub open spec fn parse_block(
    b: Seq<char>,
    p: int,
    lidx: int,
    name: Option<Seq<char>>,
    pts: Seq<CurvePoint>,
) -> Result<(Option<Seq<char>>, Seq<CurvePoint>), CurveConfLoadingError>
    decreases b.len() + 1 - p,
    via parse_block_decreases
{
    if p < 0 || p >= b.len() {
        Ok((name, pts))
    } else {
        let q = line_end(b, p, b.len() as int);
        if blank_in(b, p, q) {
            Err(CurveConfLoadingError::UnexpectedEmptyLine((lidx + 1) as usize))
        } else if header_in(b, p, q) {
            match name_error_in(b, p + 1, q - 1) {
                Some(k) => Err(CurveConfLoadingError::InvalidProfileName(k)),
                None => parse_block(b, q + 1, lidx + 1, Some(b.subrange(p + 1, q - 1)), pts),
            }
        } else if !point_line_shape(b, p, q) {
            Err(CurveConfLoadingError::UnexpectedCharacter((lidx + 1) as usize))
        } else if point_speed(b, p, q) > MAX_SPEED as nat {
            Err(CurveConfLoadingError::InvalidCurvePoint(point_speed(b, p, q) as u32))
        } else {
            parse_block(
                b,
                q + 1,
                lidx + 1,
                name,
                pts.push(
                    CurvePoint {
                        temperature: point_temp(b, p, q) as u32,
                        speed: point_speed(b, p, q) as u32,
                    },
                ),
            )
        }
    }
}

#[via_fn]
proof fn parse_block_decreases(
    b: Seq<char>,
    p: int,
    lidx: int,
    name: Option<Seq<char>>,
    pts: Seq<CurvePoint>,
) {
    if 0 <= p < b.len() {
        lemma_line_end_props(b, p, b.len() as int);
    }
}

/// The whole document from `i` on, block by block: each block's entry
/// overwrites any earlier entry of the same name in `acc`. `lidx` is the
/// 0-based document line index of the line at `i`.
pub open spec fn parse_doc_from(
    s: Seq<char>,
    i: int,
    lidx: int,
    acc: Map<Option<Seq<char>>, Seq<CurvePoint>>,
) -> Result<Map<Option<Seq<char>>, Seq<CurvePoint>>, CurveConfLoadingError>
    decreases s.len() + 1 - i,
    via parse_doc_from_decreases
{
    if i < 0 || i > s.len() {
        Ok(acc)
    } else {
        let j = block_end(s, i);
        let b = s.subrange(i, j);
        match parse_block(b, 0, lidx, None, Seq::empty()) {
            Err(e) => Err(e),
            Ok((name, pts)) => {
                let m2 = acc.insert(name, pts);
                if j >= s.len() {
                    Ok(m2)
                } else {
                    parse_doc_from(s, j + 2, lidx + count_nl(s, i, j) + 2, m2)
                }
            },
        }
    }
}

#[via_fn]
proof fn parse_doc_from_decreases(
    s: Seq<char>,
    i: int,
    lidx: int,
    acc: Map<Option<Seq<char>>, Seq<CurvePoint>>,
) {
    if 0 <= i <= s.len() {
        lemma_block_end_props(s, i);
    }
}

/// The mapping a configuration text denotes, over `base`: `Ok` with every
/// block's entry inserted in order, or the first error found.
pub open spec fn parse_doc(s: Seq<char>, base: Map<Option<Seq<char>>, Seq<CurvePoint>>) -> Result<
    Map<Option<Seq<char>>, Seq<CurvePoint>>,
    CurveConfLoadingError,
> {
    parse_doc_from(s, 0, 0, base)
}

fn exec_is_ws(c: char) -> (r: bool)
    ensures
        r == is_ws_char(c),
{
    c == ' ' || c == '\t' || c == '\r'
}

/// Finds the end of the block starting at `i`: the first pair of adjacent
/// line breaks, or the end of the text.
fn find_block_end(s: &str, i: usize, n: usize) -> (j: usize)
    requires
        n == s@.len(),
        i <= n,
    ensures
        j == block_end(s@, i as int),
{
    let mut j = i;
    while n - j > 1
        invariant
            i <= j <= n,
            n == s@.len(),
            block_end(s@, i as int) == block_end(s@, j as int),
        decreases n - j,
    {
        if s.get_char(j) == '\n' && s.get_char(j + 1) == '\n' {
            return j;
        }
        j = j + 1;
    }
    assert(block_end(s@, j as int) == n);
    n
}

/// Finds the end of the line starting at `p`: the first line break before
/// `end`, or `end`.
fn find_line_end(s: &str, p: usize, end: usize) -> (q: usize)
    requires
        p <= end <= s@.len(),
    ensures
        q == line_end(s@, p as int, end as int),
{
    let mut q = p;
    while q < end
        invariant
            p <= q <= end <= s@.len(),
            line_end(s@, p as int, end as int) == line_end(s@, q as int, end as int),
        decreases end - q,
    {
        if s.get_char(q) == '\n' {
            return q;
        }
        q = q + 1;
    }
    q
}

/// True when the line `[p, q)` holds nothing but whitespace.
fn is_blank_line(s: &str, p: usize, q: usize) -> (r: bool)
    requires
        p <= q <= s@.len(),
    ensures
        r == blank_in(s@, p as int, q as int),
{
    let mut k = p;
    while k < q
        invariant
            p <= k <= q <= s@.len(),
            forall|m: int| p <= m < k ==> is_ws_char(s@[m]),
        decreases q - k,
    {
        if !exec_is_ws(s.get_char(k)) {
            return false;
        }
        k = k + 1;
    }
    true
}

/// Skips whitespace from `i`, staying below `end`.
fn scan_ws(s: &str, i: usize, end: usize) -> (r: usize)
    requires
        i <= end <= s@.len(),
    ensures
        i <= r <= end,
        r == ws_run(s@, i as int, end as int),
{
    let mut k = i;
    while k < end
        invariant
            i <= k <= end <= s@.len(),
            ws_run(s@, i as int, end as int) == ws_run(s@, k as int, end as int),
        decreases end - k,
    {
        if !exec_is_ws(s.get_char(k)) {
            return k;
        }
        k = k + 1;
    }
    k
}

/// Skips non-whitespace from `i`, staying below `end`.
fn scan_token(s: &str, i: usize, end: usize) -> (r: usize)
    requires
        i <= end <= s@.len(),
    ensures
        i <= r <= end,
        r == tok_run(s@, i as int, end as int),
{
    let mut k = i;
    while k < end
        invariant
            i <= k <= end <= s@.len(),
            tok_run(s@, i as int, end as int) == tok_run(s@, k as int, end as int),
        decreases end - k,
    {
        if exec_is_ws(s.get_char(k)) {
            return k;
        }
        k = k + 1;
    }
    k
}

/// Reads the digit run `[a, c)` as a `u32`; `None` when a character is no
/// digit or the value does not fit.
fn parse_digits(s: &str, a: usize, c: usize) -> (r: Option<u32>)
    requires
        a <= c <= s@.len(),
    ensures
        match r {
            Some(v) => all_digits(s@, a as int, c as int) && v as nat == digits_val(
                s@,
                a as int,
                c as int,
            ),
            None => !all_digits(s@, a as int, c as int) || digits_val(s@, a as int, c as int)
                > u32::MAX as nat,
        },
{
    let mut acc: u64 = 0;
    let mut k = a;
    while k < c
        invariant
            a <= k <= c <= s@.len(),
            all_digits(s@, a as int, k as int),
            acc as nat == digits_val(s@, a as int, k as int),
            acc <= u32::MAX as u64,
        decreases c - k,
    {
        let d = s.get_char(k) as u32;
        if d < 48 || d > 57 {
            return None;
        }
        acc = acc * 10 + (d - 48) as u64;
        assert(acc as nat == digits_val(s@, a as int, (k + 1) as int));
        if acc > u32::MAX as u64 {
            proof {
                lemma_digits_val_mono(s@, a as int, (k + 1) as int, c as int);
            }
            return None;
        }
        k = k + 1;
    }
    Some(acc as u32)
}

/// Counts line breaks in `[i, j)`.
fn count_newlines(s: &str, i: usize, j: usize) -> (c: usize)
    requires
        i <= j <= s@.len(),
    ensures
        c as int == count_nl(s@, i as int, j as int),
        c <= j - i,
{
    let mut c: usize = 0;
    let mut k = i;
    while k < j
        invariant
            i <= k <= j <= s@.len(),
            c <= k - i,
            c as int + count_nl(s@, k as int, j as int) == count_nl(s@, i as int, j as int),
        decreases j - k,
    {
        if s.get_char(k) == '\n' {
            c = c + 1;
        }
        k = k + 1;
    }
    c
}

/// Checks the profile name `[a, c)` against the naming rules.
fn check_name(s: &str, a: usize, c: usize) -> (r: Option<InvalidProfileNameError>)
    requires
        a <= c <= s@.len(),
    ensures
        r == name_error_in(s@, a as int, c as int),
{
    if c == a {
        return Some(InvalidProfileNameError::Empty);
    }
    if c - a > MAX_PROFILE_NAME_LEN {
        return Some(InvalidProfileNameError::TooBig);
    }
    let mut k = a;
    while k < c
        invariant
            a <= k <= c <= s@.len(),
            a < c,
            c - a <= MAX_PROFILE_NAME_LEN,
            forall|m: int| a <= m < k ==> !bad_name_char(s@[m]),
        decreases c - k,
    {
        let ch = s.get_char(k);
        let u = ch as u32;
        if u < 32 || u == 127 || ch == '[' || ch == ']' {
            proof {
                assert(bad_name_char(s@[k as int]));
                assert(exists|m: int| a <= m < c && bad_name_char(s@[m]));
            }
            return Some(InvalidProfileNameError::WrongCharacters);
        }
        k = k + 1;
    }
    None
}

/// The optional profile name, seen as a sequence of characters.
pub open spec fn opt_name_view(n: Option<String>) -> Option<Seq<char>> {
    match n {
        Some(s) => Some(s@),
        None => None,
    }
}

/// A parsed block, seen at the specification level.
pub open spec fn profile_result_view(
    r: Result<(Option<String>, Vec<CurvePoint>), CurveConfLoadingError>,
) -> Result<(Option<Seq<char>>, Seq<CurvePoint>), CurveConfLoadingError> {
    match r {
        Ok((name, pts)) => Ok((opt_name_view(name), pts@)),
        Err(e) => Err(e),
    }
}

/// The map an association list denotes: a later entry for a name
/// overwrites an earlier one.
pub open spec fn assoc_map(es: Seq<(Option<Seq<char>>, Seq<CurvePoint>)>) -> Map<
    Option<Seq<char>>,
    Seq<CurvePoint>,
>
    decreases es.len(),
{
    if es.len() == 0 {
        Map::empty()
    } else {
        assoc_map(es.drop_last()).insert(es.last().0, es.last().1)
    }
}

/// One stored profile, seen at the specification level.
pub open spec fn entry_view(e: (Option<String>, Vec<CurvePoint>)) -> (
    Option<Seq<char>>,
    Seq<CurvePoint>,
) {
    (opt_name_view(e.0), e.1@)
}

/// The curves of a configuration, each under its optional profile name.
pub struct CurveManager {
    curves: Vec<(Option<String>, Vec<CurvePoint>)>,
}

impl View for CurveManager {
    type V = Map<Option<Seq<char>>, Seq<CurvePoint>>;

    closed spec fn view(&self) -> Map<Option<Seq<char>>, Seq<CurvePoint>> {
        assoc_map(self.curves@.map_values(|e: (Option<String>, Vec<CurvePoint>)| entry_view(e)))
    }
}

impl CurveManager {
    /// A manager holding no curves yet.
    pub fn new() -> (r: CurveManager)
        ensures
            r@ == Map::<Option<Seq<char>>, Seq<CurvePoint>>::empty(),
    {
        let r = CurveManager { curves: Vec::new() };
        proof {
            assert(r.curves@.map_values(
                |e: (Option<String>, Vec<CurvePoint>)| entry_view(e),
            ) =~= Seq::<(Option<Seq<char>>, Seq<CurvePoint>)>::empty());
        }
        r
    }

    /// Parses one block of the configuration: an optional `[name]` header
    /// and the curve points listed under it, in order. `first_line` is
    /// the 1-based document line number of the block's first line, used
    /// in reported errors.
    pub fn parse_profile(block: &str, first_line: usize) -> (r: Result<
        (Option<String>, Vec<CurvePoint>),
        CurveConfLoadingError,
    >)
        requires
            1 <= first_line,
            first_line - 1 + block@.len() <= usize::MAX,
        ensures
            profile_result_view(r) == parse_block(
                block@,
                0,
                first_line - 1,
                None,
                Seq::empty(),
            ),
    {
        let ghost b = block@;
        let ghost target = parse_block(b, 0, first_line - 1, None, Seq::<CurvePoint>::empty());
        let n = block.unicode_len();
        let mut p: usize = 0;
        let mut lineidx: usize = first_line - 1;
        let mut name: Option<String> = None;
        let mut pts: Vec<CurvePoint> = Vec::new();
        while p < n
            invariant
                b == block@,
                n == b.len(),
                p <= n + 1,
                first_line - 1 <= lineidx,
                lineidx <= first_line - 1 + p,
                first_line - 1 + n <= usize::MAX,
                target == parse_block(b, 0, first_line - 1, None, Seq::<CurvePoint>::empty()),
                target == parse_block(b, p as int, lineidx as int, opt_name_view(name), pts@),
            decreases n + 1 - p,
        {
            let q = find_line_end(block, p, n);
            proof {
                lemma_line_end_props(b, p as int, n as int);
            }
            if is_blank_line(block, p, q) {
                proof {
                    assert(target == Err::<(Option<Seq<char>>, Seq<CurvePoint>), _>(
                        CurveConfLoadingError::UnexpectedEmptyLine((lineidx + 1) as usize),
                    ));
                }
                return Err(CurveConfLoadingError::UnexpectedEmptyLine(lineidx + 1));
            }
            assert(p < q);
            let c0 = block.get_char(p);
            let cl = block.get_char(q - 1);
            if c0 == '[' && cl == ']' {
                assert(header_in(b, p as int, q as int));
                assert(q >= p + 2);
                match check_name(block, p + 1, q - 1) {
                    Some(k) => {
                        return Err(CurveConfLoadingError::InvalidProfileName(k));
                    },
                    None => {
                        let nm = block.substring_char(p + 1, q - 1);
                        name = Some(String::from_str(nm));
                        assert(opt_name_view(name) == Some(b.subrange(p + 1, q - 1)));
                    },
                }
            } else {
                assert(!header_in(b, p as int, q as int));
                let t0 = scan_ws(block, p, q);
                let t1 = scan_token(block, t0, q);
                if t0 == t1 {
                    assert(!point_line_shape(b, p as int, q as int));
                    return Err(CurveConfLoadingError::UnexpectedCharacter(lineidx + 1));
                }
                let v1 = match parse_digits(block, t0, t1) {
                    None => {
                        assert(!point_line_shape(b, p as int, q as int));
                        return Err(CurveConfLoadingError::UnexpectedCharacter(lineidx + 1));
                    },
                    Some(v) => v,
                };
                let t2 = scan_ws(block, t1, q);
                let t3 = scan_token(block, t2, q);
                if t2 == t3 {
                    assert(!point_line_shape(b, p as int, q as int));
                    return Err(CurveConfLoadingError::UnexpectedCharacter(lineidx + 1));
                }
                let v2 = match parse_digits(block, t2, t3) {
                    None => {
                        assert(!point_line_shape(b, p as int, q as int));
                        return Err(CurveConfLoadingError::UnexpectedCharacter(lineidx + 1));
                    },
                    Some(v) => v,
                };
                let t4 = scan_ws(block, t3, q);
                if t4 != q {
                    assert(!point_line_shape(b, p as int, q as int));
                    return Err(CurveConfLoadingError::UnexpectedCharacter(lineidx + 1));
                }
                assert(point_line_shape(b, p as int, q as int));
                assert(v1 as nat == point_temp(b, p as int, q as int));
                assert(v2 as nat == point_speed(b, p as int, q as int));
                match CurvePoint::new(v1, v2) {
                    Err(e) => {
                        return Err(CurveConfLoadingError::InvalidCurvePoint(e.value));
                    },
                    Ok(cp) => {
                        pts.push(cp);
                    },
                }
            }
            proof {
                assert(target == parse_block(
                    b,
                    q as int + 1,
                    lineidx as int + 1,
                    opt_name_view(name),
                    pts@,
                ));
            }
            if q < n {
                lineidx = lineidx + 1;
                p = q + 1;
            } else {
                return Ok((name, pts));
            }
        }
        Ok((name, pts))
    }

    /// Parses a whole configuration text and stores every block's curve
    /// under its profile name, later blocks overwriting earlier ones; on
    /// an error nothing is kept.
    pub fn load_profiles(&mut self, conf_string: &str) -> (r: Result<(), CurveConfLoadingError>)
        ensures
            match parse_doc(conf_string@, old(self)@) {
                Ok(m) => r is Ok && final(self)@ == m,
                Err(e) => r == Err::<(), CurveConfLoadingError>(e) && final(self)@ == old(self)@,
            },
    {
        let ghost s = conf_string@;
        let ghost target = parse_doc_from(s, 0, 0, old(self)@);
        let n = conf_string.unicode_len();
        let old_len = self.curves.len();
        let mut i: usize = 0;
        let mut lidx: usize = 0;
        let mut done = false;
        while !done
            invariant
                s == conf_string@,
                n == s.len(),
                old_len == old(self).curves@.len(),
                old_len <= self.curves@.len(),
                self.curves@.subrange(0, old_len as int) == old(self).curves@,
                target == parse_doc_from(s, 0, 0, old(self)@),
                done ==> target == Ok::<_, CurveConfLoadingError>(self@),
                !done ==> i <= n && lidx <= i && target == parse_doc_from(
                    s,
                    i as int,
                    lidx as int,
                    self@,
                ),
            decreases n - i + (if done {
                0int
            } else {
                1int
            }),
        {
            if i == n {
                let ghost pre = *self;
                self.curves.push((None, Vec::new()));
                proof {
                    assert(pre.curves@ =~= self.curves@.subrange(0, self.curves@.len() - 1));
                    lemma_view_push(pre, *self, self.curves@.len() - 1, pre@);
                    assert(block_end(s, n as int) == n);
                    assert(s.subrange(n as int, n as int) =~= Seq::<char>::empty());
                    assert(parse_block(Seq::<char>::empty(), 0, lidx as int, None, Seq::<
                        CurvePoint,
                    >::empty()) == Ok::<_, CurveConfLoadingError>((
                        None::<Seq<char>>,
                        Seq::<CurvePoint>::empty(),
                    )));
                    assert(self.curves@.subrange(0, old_len as int) == old(self).curves@);
                }
                done = true;
            } else {
                let j = find_block_end(conf_string, i, n);
                proof {
                    lemma_block_end_props(s, i as int);
                }
                let blockstr = conf_string.substring_char(i, j);
                match CurveManager::parse_profile(blockstr, lidx + 1) {
                    Err(e) => {
                        proof {
                            assert(target == Err::<Map<Option<Seq<char>>, Seq<CurvePoint>>, _>(e));
                        }
                        while self.curves.len() > old_len
                            invariant
                                old_len <= self.curves@.len(),
                                self.curves@.subrange(0, old_len as int) == old(self).curves@,
                            decreases self.curves.len(),
                        {
                            let _dropped = self.curves.pop();
                            proof {
                                assert(self.curves@.subrange(0, old_len as int) =~= old(
                                    self,
                                ).curves@);
                            }
                        }
                        proof {
                            assert(self.curves@ =~= old(self).curves@);
                        }
                        return Err(e);
                    },
                    Ok((name, pts)) => {
                        let ghost pre = *self;
                        let ghost prev = self@;
                        let ghost nv = opt_name_view(name);
                        let ghost pv = pts@;
                        self.curves.push((name, pts));
                        proof {
                            assert(pre.curves@ =~= self.curves@.subrange(0, self.curves@.len() - 1));
                            lemma_view_push(pre, *self, self.curves@.len() - 1, prev);
                            assert(self@ == prev.insert(nv, pv));
                            assert(self.curves@.subrange(0, old_len as int) == old(self).curves@);
                        }
                        if j == n {
                            proof {
                                assert(target == Ok::<_, CurveConfLoadingError>(
                                    prev.insert(nv, pv),
                                ));
                            }
                            done = true;
                        } else {
                            let c = count_newlines(conf_string, i, j);
                            proof {
                                assert(target == parse_doc_from(
                                    s,
                                    j as int + 2,
                                    lidx as int + c as int + 2,
                                    prev.insert(nv, pv),
                                ));
                            }
                            lidx = lidx + c + 2;
                            i = j + 2;
                        }
                    },
                }
            }
        }
        Ok(())
    }

    /// Looks a curve up by its optional profile name: the curve of the
    /// last block of that name, or `None` when the name is unknown.
    pub fn get_curve(&self, profile_name: &Option<String>) -> (r: Option<&Vec<CurvePoint>>)
        ensures
            match r {
                Some(c) => self@.contains_key(opt_name_view(*profile_name)) && c@ == self@[
                    opt_name_view(*profile_name)
                ],
                None => !self@.contains_key(opt_name_view(*profile_name)),
            },
    {
        let ghost key = opt_name_view(*profile_name);
        let ghost es = self.curves@.map_values(
            |e: (Option<String>, Vec<CurvePoint>)| entry_view(e),
        );
        let mut k = self.curves.len();
        while k > 0
            invariant
                k <= self.curves@.len(),
                es == self.curves@.map_values(
                    |e: (Option<String>, Vec<CurvePoint>)| entry_view(e),
                ),
                key == opt_name_view(*profile_name),
                forall|j: int| k <= j < es.len() ==> es[j].0 != key,
            decreases k,
        {
            k = k - 1;
            let found = opt_name_eq(&self.curves[k].0, profile_name);
            if found {
                proof {
                    assert(es[k as int] == entry_view(self.curves@[k as int]));
                    lemma_assoc_found(es, k as int);
                }
                return Some(&self.curves[k].1);
            }
            proof {
                assert(es[k as int] == entry_view(self.curves@[k as int]));
            }
        }
        proof {
            lemma_assoc_absent(es, key);
        }
        None
    }

    /// Reads the configuration text from the given reader and parses it
    /// into a fresh manager.
    pub fn from_reader<R: ConfReader>(reader: &R) -> (r: Result<CurveManager, CurveLoadError>)
        ensures
            r is Ok ==> exists|t: Seq<char>|
                parse_doc(t, Map::empty()) == Ok::<_, CurveConfLoadingError>((r->Ok_0)@),
    {
        let conf = match reader.get_conf_string() {
            Ok(c) => c,
            Err(e) => {
                return Err(CurveLoadError::Reader(e));
            },
        };
        let mut m = CurveManager::new();
        match m.load_profiles(conf.as_str()) {
            Ok(()) => {
                proof {
                    assert(parse_doc(conf@, Map::empty()) == Ok::<_, CurveConfLoadingError>(m@));
                }
                Ok(m)
            },
            Err(e) => Err(CurveLoadError::Conf(e)),
        }
    }
}

/// Why a configuration could not be loaded through a reader: the read
/// itself failed, or the text did not parse.
#[derive(Debug)]
pub enum CurveLoadError {
    Reader(ConfReaderError),
    Conf(CurveConfLoadingError),
}

/// Compares two optional profile names by their character sequences.
fn opt_name_eq(a: &Option<String>, b: &Option<String>) -> (r: bool)
    ensures
        r == (opt_name_view(*a) == opt_name_view(*b)),
{
    match (a, b) {
        (None, None) => true,
        (Some(x), Some(y)) => x.eq(y),
        _ => false,
    }
}

/// Pushing an entry inserts its name into the manager's map.
proof fn lemma_view_push(
    m0: CurveManager,
    m1: CurveManager,
    last: int,
    prev: Map<Option<Seq<char>>, Seq<CurvePoint>>,
)
    requires
        last == m1.curves@.len() - 1,
        m1.curves@.len() >= 1,
        m0.curves@ == m1.curves@.subrange(0, last),
        prev == m0@,
    ensures
        m1@ == prev.insert(opt_name_view(m1.curves@[last].0), m1.curves@[last].1@),
{
    let f = |e: (Option<String>, Vec<CurvePoint>)| entry_view(e);
    let es0 = m0.curves@.map_values(f);
    let es1 = m1.curves@.map_values(f);
    assert(es1.drop_last() =~= es0);
    assert(es1.last() == entry_view(m1.curves@[last]));
}

/// On a well-shaped point line the speed value alone decides the
/// speed-domain check, whatever the temperature value: above
/// [`MAX_SPEED`] the whole block parse fails with the speed-domain error
/// carrying that value, and at or below it the point is accepted and
/// parsing continues behind the line.
pub proof fn lemma_speed_domain(
    b: Seq<char>,
    p: int,
    lidx: int,
    name: Option<Seq<char>>,
    pts: Seq<CurvePoint>,
)
    requires
        0 <= p < b.len(),
        !blank_in(b, p, line_end(b, p, b.len() as int)),
        !header_in(b, p, line_end(b, p, b.len() as int)),
        point_line_shape(b, p, line_end(b, p, b.len() as int)),
    ensures
        point_speed(b, p, line_end(b, p, b.len() as int)) > MAX_SPEED as nat ==> parse_block(
            b,
            p,
            lidx,
            name,
            pts,
        ) == Err::<(Option<Seq<char>>, Seq<CurvePoint>), _>(
            CurveConfLoadingError::InvalidCurvePoint(
                point_speed(b, p, line_end(b, p, b.len() as int)) as u32,
            ),
        ),
        point_speed(b, p, line_end(b, p, b.len() as int)) <= MAX_SPEED as nat ==> parse_block(
            b,
            p,
            lidx,
            name,
            pts,
        ) == parse_block(
            b,
            line_end(b, p, b.len() as int) + 1,
            lidx + 1,
            name,
            pts.push(
                CurvePoint {
                    temperature: point_temp(b, p, line_end(b, p, b.len() as int)) as u32,
                    speed: point_speed(b, p, line_end(b, p, b.len() as int)) as u32,
                },
            ),
        ),
{
}

/// The entry found scanning backwards is the one the map holds.
proof fn lemma_assoc_found(es: Seq<(Option<Seq<char>>, Seq<CurvePoint>)>, i: int)
    requires
        0 <= i < es.len(),
        forall|j: int| i < j < es.len() ==> es[j].0 != es[i].0,
    ensures
        assoc_map(es).contains_key(es[i].0),
        assoc_map(es)[es[i].0] == es[i].1,
    decreases es.len(),
{
    if i < es.len() - 1 {
        let prev = es.drop_last();
        assert(forall|j: int| i < j < prev.len() ==> prev[j].0 != prev[i].0);
        lemma_assoc_found(prev, i);
    }
}

/// A name no entry carries is not in the map.
proof fn lemma_assoc_absent(es: Seq<(Option<Seq<char>>, Seq<CurvePoint>)>, key: Option<Seq<char>>)
    requires
        forall|j: int| 0 <= j < es.len() ==> es[j].0 != key,
    ensures
        !assoc_map(es).contains_key(key),
    decreases es.len(),
{
    if es.len() > 0 {
        lemma_assoc_absent(es.drop_last(), key);
    }
}

} // verus!
