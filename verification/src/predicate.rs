//! Filter predicates over scalar columns: `column <op> literal` terms
//! combined with `AND` and `OR` (`AND` binds tighter). Because the
//! grammar has no parentheses, every sentence denotes a disjunction of
//! conjunctions of comparisons, and predicates are stored in that form.
//!
//! The parser's behaviour is pinned exactly by spec-level parsing
//! functions over the byte sequence: the same text always yields the
//! same predicate or the same error.

use vstd::prelude::*;

verus! {

use crate::error::PredicateError;
use crate::schema::{ColumnDef, ColumnType, Schema};
use crate::value::{Value, ValueV, row_view};

/// A comparison operator.
#[derive(Clone, Copy, PartialEq, Eq, Structural, Debug)]
pub enum CmpOp {
    Eq,
    Ne,
    Lt,
    Le,
    Gt,
    Ge,
}

/// A literal operand: an integer or a byte string.
#[derive(Clone, Debug)]
pub enum Lit {
    Int(i32),
    Str(Vec<u8>),
}

/// The mathematical shape of a literal.
pub enum LitV {
    Int(i32),
    Str(Seq<u8>),
}

impl View for Lit {
    type V = LitV;

    open spec fn view(&self) -> LitV {
        match self {
            Lit::Int(n) => LitV::Int(*n),
            Lit::Str(s) => LitV::Str(s@),
        }
    }
}

impl Lit {
    /// An equal literal, element for element.
    pub fn duplicate(&self) -> (r: Lit)
        ensures
            r@ == self@,
    {
        match self {
            Lit::Int(n) => Lit::Int(*n),
            Lit::Str(s) => {
                let mut out: Vec<u8> = Vec::new();
                let n = s.len();
                let mut k: usize = 0;
                while k < n
                    invariant
                        k <= n,
                        n == s@.len(),
                        out@ == s@.subrange(0, k as int),
                    decreases n - k,
                {
                    out.push(s[k]);
                    proof {
                        assert(s@.subrange(0, k as int) + seq![s@[k as int]] =~= s@.subrange(
                            0,
                            k as int + 1,
                        ));
                    }
                    k += 1;
                }
                proof {
                    assert(s@.subrange(0, n as int) =~= s@);
                }
                Lit::Str(out)
            },
        }
    }
}

/// A parsed comparison whose column is still a name.
pub struct RawCmp {
    pub name: Vec<u8>,
    pub op: CmpOp,
    pub lit: Lit,
}

/// The mathematical shape of a [`RawCmp`].
pub struct CmpRawV {
    pub name: Seq<u8>,
    pub op: CmpOp,
    pub lit: LitV,
}

impl View for RawCmp {
    type V = CmpRawV;

    open spec fn view(&self) -> CmpRawV {
        CmpRawV { name: self.name@, op: self.op, lit: self.lit@ }
    }
}

/// A comparison resolved against a schema: the column is an index.
#[derive(Clone, Debug)]
pub struct Cmp {
    pub col: usize,
    pub op: CmpOp,
    pub lit: Lit,
}

/// The mathematical shape of a [`Cmp`].
pub struct CmpV {
    pub col: usize,
    pub op: CmpOp,
    pub lit: LitV,
}

impl View for Cmp {
    type V = CmpV;

    open spec fn view(&self) -> CmpV {
        CmpV { col: self.col, op: self.op, lit: self.lit@ }
    }
}

/// A predicate in disjunctive normal form: one of the outer groups must
/// hold, and a group holds when all its comparisons do.
#[derive(Clone, Debug)]
pub struct Predicate {
    pub terms: Vec<Vec<Cmp>>,
}

impl View for Predicate {
    type V = Seq<Seq<CmpV>>;

    open spec fn view(&self) -> Seq<Seq<CmpV>> {
        self.terms@.map_values(|conj: Vec<Cmp>| conj@.map_values(|c: Cmp| c@))
    }
}

pub open spec fn raw_conj_view(conj: Seq<RawCmp>) -> Seq<CmpRawV> {
    conj.map_values(|c: RawCmp| c@)
}

pub open spec fn raw_dnf_view(dnf: Seq<Vec<RawCmp>>) -> Seq<Seq<CmpRawV>> {
    dnf.map_values(|conj: Vec<RawCmp>| raw_conj_view(conj@))
}

// ---------------------------------------------------------------------
// Lexical character classes.
pub open spec fn is_space(b: u8) -> bool {
    b == 32 || b == 9
}

pub open spec fn is_digit(b: u8) -> bool {
    48 <= b <= 57
}

pub open spec fn is_ident_start(b: u8) -> bool {
    (65 <= b <= 90) || (97 <= b <= 122) || b == 95
}

pub open spec fn is_ident_char(b: u8) -> bool {
    is_ident_start(b) || is_digit(b)
}

/// First position at or after `i` holding no space.
pub open spec fn skip_ws(s: Seq<u8>, i: int) -> int
    decreases s.len() - i,
{
    if 0 <= i < s.len() && is_space(s[i]) {
        skip_ws(s, i + 1)
    } else {
        i
    }
}

pub proof fn lemma_skip_ws(s: Seq<u8>, i: int)
    requires
        0 <= i <= s.len(),
    ensures
        i <= skip_ws(s, i) <= s.len(),
    decreases s.len() - i,
{
    if i < s.len() && is_space(s[i]) {
        lemma_skip_ws(s, i + 1);
    }
}

/// First position at or after `i` holding no identifier character.
pub open spec fn scan_ident(s: Seq<u8>, i: int) -> int
    decreases s.len() - i,
{
    if 0 <= i < s.len() && is_ident_char(s[i]) {
        scan_ident(s, i + 1)
    } else {
        i
    }
}

pub proof fn lemma_scan_ident(s: Seq<u8>, i: int)
    requires
        0 <= i <= s.len(),
    ensures
        i <= scan_ident(s, i) <= s.len(),
    decreases s.len() - i,
{
    if i < s.len() && is_ident_char(s[i]) {
        lemma_scan_ident(s, i + 1);
    }
}

/// First position at or after `i` holding no digit.
pub open spec fn scan_digits(s: Seq<u8>, i: int) -> int
    decreases s.len() - i,
{
    if 0 <= i < s.len() && is_digit(s[i]) {
        scan_digits(s, i + 1)
    } else {
        i
    }
}

pub proof fn lemma_scan_digits(s: Seq<u8>, i: int)
    requires
        0 <= i <= s.len(),
    ensures
        i <= scan_digits(s, i) <= s.len(),
        forall|m: int| i <= m < scan_digits(s, i) ==> is_digit(#[trigger] s[m]),
    decreases s.len() - i,
{
    if i < s.len() && is_digit(s[i]) {
        lemma_scan_digits(s, i + 1);
    }
}

/// Position of the closing quote at or after `i`, if any.
pub open spec fn scan_str(s: Seq<u8>, i: int) -> Option<int>
    decreases s.len() - i,
{
    if i < 0 || i >= s.len() {
        None
    } else if s[i] == 39 {
        Some(i)
    } else {
        scan_str(s, i + 1)
    }
}

pub proof fn lemma_scan_str(s: Seq<u8>, i: int)
    requires
        0 <= i <= s.len(),
    ensures
        scan_str(s, i) matches Some(q) ==> i <= q < s.len(),
    decreases s.len() - i,
{
    if i < s.len() && s[i] != 39 {
        lemma_scan_str(s, i + 1);
    }
}

/// Decimal value of `s[i .. j)`, read left to right, clamped just above
/// the magnitude any 32-bit literal may have.
pub open spec fn dval_from(s: Seq<u8>, i: int, j: int, acc: int) -> int
    decreases j - i,
{
    if i < 0 || i >= j {
        acc
    } else {
        dval_from(
            s,
            i + 1,
            j,
            if acc * 10 + (s[i] - 48) > 2147483649 {
                2147483649int
            } else {
                acc * 10 + (s[i] - 48)
            },
        )
    }
}

/// The comparison operator starting at `i`, with the position after it.
pub open spec fn parse_op_at(s: Seq<u8>, i: int) -> Option<(CmpOp, int)> {
    if 0 <= i < s.len() {
        if s[i] == 62 {  // '>'
            if i + 1 < s.len() && s[i + 1] == 61 {
                Some((CmpOp::Ge, i + 2))
            } else {
                Some((CmpOp::Gt, i + 1))
            }
        } else if s[i] == 60 {  // '<'
            if i + 1 < s.len() && s[i + 1] == 61 {
                Some((CmpOp::Le, i + 2))
            } else {
                Some((CmpOp::Lt, i + 1))
            }
        } else if s[i] == 61 {  // '='
            Some((CmpOp::Eq, i + 1))
        } else if s[i] == 33 && i + 1 < s.len() && s[i + 1] == 61 {  // '!='
            Some((CmpOp::Ne, i + 2))
        } else {
            None
        }
    } else {
        None
    }
}

/// The literal starting exactly at `i`: a quoted byte string or a
/// decimal integer that fits in 32 bits.
pub open spec fn parse_lit_at(s: Seq<u8>, i: int) -> Result<(LitV, int), PredicateError> {
    if !(0 <= i < s.len()) {
        Err(PredicateError::SyntaxError(i as usize))
    } else if s[i] == 39 {  // opening quote
        match scan_str(s, i + 1) {
            None => Err(PredicateError::SyntaxError(i as usize)),
            Some(q) => Ok((LitV::Str(s.subrange(i + 1, q)), q + 1)),
        }
    } else if s[i] == 45 || is_digit(s[i]) {  // '-' or digit
        let d0 = if s[i] == 45 {
            i + 1
        } else {
            i
        };
        let e = scan_digits(s, d0);
        if e == d0 {
            Err(PredicateError::SyntaxError(i as usize))
        } else {
            let v = dval_from(s, d0, e, 0);
            if s[i] == 45 {
                if v > 2147483648 {
                    Err(PredicateError::SyntaxError(i as usize))
                } else {
                    Ok((LitV::Int((-v) as i32), e))
                }
            } else {
                if v > 2147483647 {
                    Err(PredicateError::SyntaxError(i as usize))
                } else {
                    Ok((LitV::Int(v as i32), e))
                }
            }
        }
    } else {
        Err(PredicateError::SyntaxError(i as usize))
    }
}

pub proof fn lemma_parse_lit(s: Seq<u8>, i: int)
    requires
        0 <= i <= s.len(),
    ensures
        parse_lit_at(s, i) matches Ok(lj) ==> i < lj.1 <= s.len(),
{
    if 0 <= i < s.len() {
        if s[i] == 39 {
            lemma_scan_str(s, i + 1);
        } else if s[i] == 45 || is_digit(s[i]) {
            let d0 = if s[i] == 45 {
                i + 1
            } else {
                i
            };
            if d0 <= s.len() {
                lemma_scan_digits(s, d0);
            }
        }
    }
}

/// One comparison starting at `i`, spaces allowed around its parts.
pub open spec fn parse_cmp_at(s: Seq<u8>, i: int) -> Result<(CmpRawV, int), PredicateError> {
    let i1 = skip_ws(s, i);
    if !(0 <= i1 < s.len() && is_ident_start(s[i1])) {
        Err(PredicateError::SyntaxError(i1 as usize))
    } else {
        let e1 = scan_ident(s, i1 + 1);
        let name = s.subrange(i1, e1);
        let i2 = skip_ws(s, e1);
        match parse_op_at(s, i2) {
            None => Err(PredicateError::SyntaxError(i2 as usize)),
            Some((op, i3)) => {
                let i4 = skip_ws(s, i3);
                match parse_lit_at(s, i4) {
                    Err(e) => Err(e),
                    Ok((lit, j)) => Ok((CmpRawV { name, op, lit }, j)),
                }
            },
        }
    }
}

pub proof fn lemma_parse_cmp(s: Seq<u8>, i: int)
    requires
        0 <= i <= s.len(),
    ensures
        parse_cmp_at(s, i) matches Ok(cj) ==> i < cj.1 <= s.len(),
{
    lemma_skip_ws(s, i);
    let i1 = skip_ws(s, i);
    if 0 <= i1 < s.len() && is_ident_start(s[i1]) {
        lemma_scan_ident(s, i1 + 1);
        let e1 = scan_ident(s, i1 + 1);
        lemma_skip_ws(s, e1);
        let i2 = skip_ws(s, e1);
        match parse_op_at(s, i2) {
            None => {},
            Some((op, i3)) => {
                lemma_skip_ws(s, i3);
                let i4 = skip_ws(s, i3);
                lemma_parse_lit(s, i4);
            },
        }
    }
}

pub open spec fn is_and_word(w: Seq<u8>) -> bool {
    w.len() == 3 && w[0] == 65 && w[1] == 78 && w[2] == 68
}

pub open spec fn is_or_word(w: Seq<u8>) -> bool {
    w.len() == 2 && w[0] == 79 && w[1] == 82
}

/// The chain of comparisons from `i` on, split on `OR` into groups of
/// `AND`-joined terms, with the groups and terms read so far as
/// accumulators. Returns the groups and the position after the last
/// comparison.
pub open spec fn parse_chain(
    s: Seq<u8>,
    i: int,
    acc: Seq<Seq<CmpRawV>>,
    cur: Seq<CmpRawV>,
) -> Result<(Seq<Seq<CmpRawV>>, int), PredicateError>
    decreases s.len() - i,
    when 0 <= i <= s.len()
    via parse_chain_dec
{
    match parse_cmp_at(s, i) {
        Err(e) => Err(e),
        Ok((c, j)) => {
            let cur2 = cur.push(c);
            let k = skip_ws(s, j);
            let e = scan_ident(s, k);
            let w = s.subrange(k, e);
            if is_and_word(w) {
                parse_chain(s, e, acc, cur2)
            } else if is_or_word(w) {
                parse_chain(s, e, acc.push(cur2), Seq::empty())
            } else {
                Ok((acc.push(cur2), j))
            }
        },
    }
}

#[via_fn]
proof fn parse_chain_dec(s: Seq<u8>, i: int, acc: Seq<Seq<CmpRawV>>, cur: Seq<CmpRawV>) {
    lemma_parse_cmp(s, i);
    match parse_cmp_at(s, i) {
        Err(_) => {},
        Ok((c, j)) => {
            lemma_skip_ws(s, j);
            lemma_scan_ident(s, skip_ws(s, j));
        },
    }
}

/// The whole text as a predicate over column names: the chain, with
/// nothing but spaces allowed after it.
pub open spec fn spec_parse_raw(s: Seq<u8>) -> Result<Seq<Seq<CmpRawV>>, PredicateError> {
    match parse_chain(s, 0, Seq::empty(), Seq::empty()) {
        Err(e) => Err(e),
        Ok((dnf, j)) => {
            let k = skip_ws(s, j);
            if k == s.len() {
                Ok(dnf)
            } else {
                Err(PredicateError::SyntaxError(k as usize))
            }
        },
    }
}

// ---------------------------------------------------------------------
// Resolution against a schema.
/// Why one comparison cannot be resolved, if it cannot.
pub open spec fn cmp_issue(cols: Seq<ColumnDef>, c: CmpRawV) -> Option<PredicateError> {
    match Schema::spec_col_named_from(cols, c.name, 0) {
        None => Some(PredicateError::UnknownColumn),
        Some(ci) => match (cols[ci as int].ctype, c.lit) {
            (ColumnType::Int32, LitV::Int(_)) => None,
            (ColumnType::Utf8, LitV::Str(_)) => None,
            _ => Some(PredicateError::TypeMismatch),
        },
    }
}

/// The resolved form of a resolvable comparison.
pub open spec fn resolve_cmp_ok(cols: Seq<ColumnDef>, c: CmpRawV) -> CmpV {
    CmpV {
        col: Schema::spec_col_named_from(cols, c.name, 0)->Some_0,
        op: c.op,
        lit: c.lit,
    }
}

pub open spec fn first_cmp_issue(
    cols: Seq<ColumnDef>,
    conj: Seq<CmpRawV>,
    k: int,
) -> Option<PredicateError>
    decreases conj.len() - k,
{
    if k < 0 || k >= conj.len() {
        None
    } else if cmp_issue(cols, conj[k]) is Some {
        cmp_issue(cols, conj[k])
    } else {
        first_cmp_issue(cols, conj, k + 1)
    }
}

pub open spec fn first_resolve_issue(
    cols: Seq<ColumnDef>,
    dnf: Seq<Seq<CmpRawV>>,
    t: int,
) -> Option<PredicateError>
    decreases dnf.len() - t,
{
    if t < 0 || t >= dnf.len() {
        None
    } else if first_cmp_issue(cols, dnf[t], 0) is Some {
        first_cmp_issue(cols, dnf[t], 0)
    } else {
        first_resolve_issue(cols, dnf, t + 1)
    }
}

/// The resolved form of one conjunction.
pub open spec fn resolved_conj(cols: Seq<ColumnDef>, conj: Seq<CmpRawV>) -> Seq<CmpV> {
    conj.map_values(|c: CmpRawV| resolve_cmp_ok(cols, c))
}

/// The fully resolved predicate (meaningful when no issue exists).
pub open spec fn resolved_dnf(cols: Seq<ColumnDef>, dnf: Seq<Seq<CmpRawV>>) -> Seq<Seq<CmpV>> {
    dnf.map_values(|conj: Seq<CmpRawV>| resolved_conj(cols, conj))
}

/// The abstract form of one stored conjunction.
pub open spec fn cmp_vec_view(conj: Vec<Cmp>) -> Seq<CmpV> {
    conj@.map_values(|c: Cmp| c@)
}

/// What parsing the text against the schema yields: the leftmost syntax
/// error, else the leftmost resolution error, else the predicate.
pub open spec fn spec_parse_predicate(s: Seq<u8>, cols: Seq<ColumnDef>) -> Result<
    Seq<Seq<CmpV>>,
    PredicateError,
> {
    match spec_parse_raw(s) {
        Err(e) => Err(e),
        Ok(raw) => match first_resolve_issue(cols, raw, 0) {
            Some(e) => Err(e),
            None => Ok(resolved_dnf(cols, raw)),
        },
    }
}

// ---------------------------------------------------------------------
// Predicate semantics.
pub open spec fn spec_cmp_int(op: CmpOp, x: int, y: int) -> bool {
    match op {
        CmpOp::Eq => x == y,
        CmpOp::Ne => x != y,
        CmpOp::Lt => x < y,
        CmpOp::Le => x <= y,
        CmpOp::Gt => x > y,
        CmpOp::Ge => x >= y,
    }
}

/// Strict lexicographic order on byte strings.
pub open spec fn lex_lt(a: Seq<u8>, b: Seq<u8>) -> bool
    decreases a.len(),
{
    if b.len() == 0 {
        false
    } else if a.len() == 0 {
        true
    } else if a[0] < b[0] {
        true
    } else if a[0] > b[0] {
        false
    } else {
        lex_lt(a.drop_first(), b.drop_first())
    }
}

pub open spec fn spec_cmp_bytes(op: CmpOp, a: Seq<u8>, b: Seq<u8>) -> bool {
    match op {
        CmpOp::Eq => a == b,
        CmpOp::Ne => a != b,
        CmpOp::Lt => lex_lt(a, b),
        CmpOp::Le => !lex_lt(b, a),
        CmpOp::Gt => lex_lt(b, a),
        CmpOp::Ge => !lex_lt(a, b),
    }
}

/// Whether one comparison holds of a row.
pub open spec fn spec_eval_cmp(c: CmpV, row: Seq<ValueV>) -> bool {
    match (row[c.col as int], c.lit) {
        (ValueV::Int32(x), LitV::Int(y)) => spec_cmp_int(c.op, x as int, y as int),
        (ValueV::Utf8(s), LitV::Str(t)) => spec_cmp_bytes(c.op, s, t),
        _ => false,
    }
}

/// A conjunction holds when all its comparisons do.
pub open spec fn conj_holds(conj: Seq<CmpV>, row: Seq<ValueV>) -> bool {
    forall|k: int| 0 <= k < conj.len() ==> #[trigger] spec_eval_cmp(conj[k], row)
}

/// A predicate holds when one of its groups does.
pub open spec fn pred_holds(dnf: Seq<Seq<CmpV>>, row: Seq<ValueV>) -> bool {
    exists|t: int| 0 <= t < dnf.len() && #[trigger] conj_holds(dnf[t], row)
}

/// One comparison can be evaluated against the row: the column exists
/// and holds a scalar of the literal's kind.
pub open spec fn cmp_compatible(c: CmpV, row: Seq<ValueV>) -> bool {
    &&& c.col < row.len()
    &&& match (row[c.col as int], c.lit) {
        (ValueV::Int32(_), LitV::Int(_)) => true,
        (ValueV::Utf8(_), LitV::Str(_)) => true,
        _ => false,
    }
}

pub open spec fn dnf_compatible(dnf: Seq<Seq<CmpV>>, row: Seq<ValueV>) -> bool {
    forall|t: int, k: int|
        0 <= t < dnf.len() && 0 <= k < dnf[t].len() ==> #[trigger] cmp_compatible(
            dnf[t][k],
            row,
        )
}

/// A predicate shaped for these columns: every comparison names a real
/// column whose type matches its literal.
pub open spec fn dnf_wf(dnf: Seq<Seq<CmpV>>, cols: Seq<ColumnDef>) -> bool {
    forall|t: int, k: int|
        0 <= t < dnf.len() && 0 <= k < dnf[t].len() ==> #[trigger] cmp_wf(dnf[t][k], cols)
}

pub open spec fn cmp_wf(c: CmpV, cols: Seq<ColumnDef>) -> bool {
    &&& c.col < cols.len()
    &&& match (cols[c.col as int].ctype, c.lit) {
        (ColumnType::Int32, LitV::Int(_)) => true,
        (ColumnType::Utf8, LitV::Str(_)) => true,
        _ => false,
    }
}

// ---------------------------------------------------------------------
// Executable lexing helpers, each pinned to its spec counterpart.
fn exec_skip_ws(s: &Vec<u8>, i: usize) -> (r: usize)
    requires
        i <= s@.len(),
    ensures
        r == skip_ws(s@, i as int),
        i <= r <= s@.len(),
{
    let n = s.len();
    let mut j = i;
    while j < n && (s[j] == 32 || s[j] == 9)
        invariant
            i <= j <= n,
            n == s@.len(),
            skip_ws(s@, i as int) == skip_ws(s@, j as int),
        decreases n - j,
    {
        j += 1;
    }
    j
}

fn exec_scan_ident(s: &Vec<u8>, i: usize) -> (r: usize)
    requires
        i <= s@.len(),
    ensures
        r == scan_ident(s@, i as int),
        i <= r <= s@.len(),
{
    let n = s.len();
    let mut j = i;
    while j < n && ((65 <= s[j] && s[j] <= 90) || (97 <= s[j] && s[j] <= 122) || s[j] == 95 || (
    48 <= s[j] && s[j] <= 57))
        invariant
            i <= j <= n,
            n == s@.len(),
            scan_ident(s@, i as int) == scan_ident(s@, j as int),
        decreases n - j,
    {
        j += 1;
    }
    j
}

fn exec_scan_digits(s: &Vec<u8>, i: usize) -> (r: usize)
    requires
        i <= s@.len(),
    ensures
        r == scan_digits(s@, i as int),
        i <= r <= s@.len(),
{
    let n = s.len();
    let mut j = i;
    while j < n && 48 <= s[j] && s[j] <= 57
        invariant
            i <= j <= n,
            n == s@.len(),
            scan_digits(s@, i as int) == scan_digits(s@, j as int),
        decreases n - j,
    {
        j += 1;
    }
    j
}

/// Copy `s[a .. b)` out of a byte buffer.
fn copy_range(s: &Vec<u8>, a: usize, b: usize) -> (out: Vec<u8>)
    requires
        a <= b <= s@.len(),
    ensures
        out@ == s@.subrange(a as int, b as int),
{
    let mut out: Vec<u8> = Vec::new();
    let mut k = a;
    while k < b
        invariant
            a <= k <= b <= s@.len(),
            out@ == s@.subrange(a as int, k as int),
        decreases b - k,
    {
        out.push(s[k]);
        proof {
            assert(s@.subrange(a as int, k as int) + seq![s@[k as int]] =~= s@.subrange(
                a as int,
                k as int + 1,
            ));
        }
        k += 1;
    }
    out
}

/// Parse the literal at `i`, exactly as [`parse_lit_at`] reads it.
fn exec_parse_lit(s: &Vec<u8>, i: usize) -> (r: Result<(Lit, usize), PredicateError>)
    requires
        i <= s@.len(),
    ensures
        match (r, parse_lit_at(s@, i as int)) {
            (Ok((l, j)), Ok(lj)) => l@ == lj.0 && j == lj.1 && i < j <= s@.len(),
            (Err(e), Err(ev)) => e == ev,
            _ => false,
        },
{
    proof {
        lemma_parse_lit(s@, i as int);
    }
    let n = s.len();
    if i >= n {
        return Err(PredicateError::SyntaxError(i));
    }
    let b0 = s[i];
    if b0 == 39 {
        let mut k = i + 1;
        while k < n && s[k] != 39
            invariant
                i + 1 <= k <= n,
                n == s@.len(),
                scan_str(s@, i as int + 1) == scan_str(s@, k as int),
            decreases n - k,
        {
            k += 1;
        }
        if k >= n {
            return Err(PredicateError::SyntaxError(i));
        }
        let body = copy_range(s, i + 1, k);
        Ok((Lit::Str(body), k + 1))
    } else if b0 == 45 || (48 <= b0 && b0 <= 57) {
        let d0 = if b0 == 45 {
            i + 1
        } else {
            i
        };
        let e = exec_scan_digits(s, d0);
        if e == d0 {
            return Err(PredicateError::SyntaxError(i));
        }
        proof {
            lemma_scan_digits(s@, d0 as int);
        }
        let mut acc: i64 = 0;
        let mut k = d0;
        while k < e
            invariant
                d0 <= k <= e <= s@.len(),
                0 <= acc <= 2147483649,
                dval_from(s@, d0 as int, e as int, 0) == dval_from(
                    s@,
                    k as int,
                    e as int,
                    acc as int,
                ),
                forall|m: int| d0 <= m < e ==> is_digit(s@[m]),
            decreases e - k,
        {
            let d = s[k] - 48;
            acc = acc * 10 + (d as i64);
            if acc > 2147483649 {
                acc = 2147483649;
            }
            k += 1;
        }
        if b0 == 45 {
            if acc > 2147483648 {
                Err(PredicateError::SyntaxError(i))
            } else {
                Ok((Lit::Int((-acc) as i32), e))
            }
        } else {
            if acc > 2147483647 {
                Err(PredicateError::SyntaxError(i))
            } else {
                Ok((Lit::Int(acc as i32), e))
            }
        }
    } else {
        Err(PredicateError::SyntaxError(i))
    }
}

/// Parse the comparison at `i`, exactly as [`parse_cmp_at`] reads it.
fn exec_parse_cmp(s: &Vec<u8>, i: usize) -> (r: Result<(RawCmp, usize), PredicateError>)
    requires
        i <= s@.len(),
    ensures
        match (r, parse_cmp_at(s@, i as int)) {
            (Ok((c, j)), Ok(cj)) => c@ == cj.0 && j == cj.1 && i < j <= s@.len(),
            (Err(e), Err(ev)) => e == ev,
            _ => false,
        },
{
    proof {
        lemma_parse_cmp(s@, i as int);
    }
    let n = s.len();
    let i1 = exec_skip_ws(s, i);
    let ok_start = i1 < n && {
        let b = s[i1];
        (65 <= b && b <= 90) || (97 <= b && b <= 122) || b == 95
    };
    if !ok_start {
        return Err(PredicateError::SyntaxError(i1));
    }
    let e1 = exec_scan_ident(s, i1 + 1);
    let name = copy_range(s, i1, e1);
    let i2 = exec_skip_ws(s, e1);
    let opj: Option<(CmpOp, usize)> = if i2 < n {
        let b = s[i2];
        if b == 62 {
            if i2 + 1 < n && s[i2 + 1] == 61 {
                Some((CmpOp::Ge, i2 + 2))
            } else {
                Some((CmpOp::Gt, i2 + 1))
            }
        } else if b == 60 {
            if i2 + 1 < n && s[i2 + 1] == 61 {
                Some((CmpOp::Le, i2 + 2))
            } else {
                Some((CmpOp::Lt, i2 + 1))
            }
        } else if b == 61 {
            Some((CmpOp::Eq, i2 + 1))
        } else if b == 33 && i2 + 1 < n && s[i2 + 1] == 61 {
            Some((CmpOp::Ne, i2 + 2))
        } else {
            None
        }
    } else {
        None
    };
    match opj {
        None => Err(PredicateError::SyntaxError(i2)),
        Some((op, i3)) => {
            let i4 = exec_skip_ws(s, i3);
            match exec_parse_lit(s, i4) {
                Err(e) => Err(e),
                Ok((lit, j)) => Ok((RawCmp { name, op, lit }, j)),
            }
        },
    }
}

/// Parse the whole text into groups of `AND`-joined comparisons,
/// exactly as [`spec_parse_raw`] reads it.
#[verifier::loop_isolation(false)]
fn parse_raw(text: &Vec<u8>) -> (r: Result<Vec<Vec<RawCmp>>, PredicateError>)
    ensures
        match (r, spec_parse_raw(text@)) {
            (Ok(v), Ok(sv)) => raw_dnf_view(v@) == sv,
            (Err(e), Err(ev)) => e == ev,
            _ => false,
        },
{
    let n = text.len();
    let mut acc: Vec<Vec<RawCmp>> = Vec::new();
    let mut cur: Vec<RawCmp> = Vec::new();
    let mut i: usize = 0;
    proof {
        assert(raw_dnf_view(acc@) =~= Seq::<Seq<CmpRawV>>::empty());
        assert(raw_conj_view(cur@) =~= Seq::<CmpRawV>::empty());
    }
    loop
        invariant
            i <= n,
            parse_chain(text@, 0, Seq::empty(), Seq::empty()) == parse_chain(
                text@,
                i as int,
                raw_dnf_view(acc@),
                raw_conj_view(cur@),
            ),
        decreases n - i,
    {
        let ghost acc0 = raw_dnf_view(acc@);
        let ghost cur0 = raw_conj_view(cur@);
        match exec_parse_cmp(text, i) {
            Err(e) => {
                return Err(e);
            },
            Ok((c, j)) => {
                cur.push(c);
                proof {
                    assert(raw_conj_view(cur@) =~= cur0.push(c@));
                }
                let k = exec_skip_ws(text, j);
                let e = exec_scan_ident(text, k);
                let ghost w = text@.subrange(k as int, e as int);
                let and_kw = e - k == 3 && text[k] == 65 && text[k + 1] == 78 && text[k + 2]
                    == 68;
                let or_kw = e - k == 2 && text[k] == 79 && text[k + 1] == 82;
                proof {
                    assert(w.len() == e - k);
                    assert(and_kw <==> is_and_word(w));
                    assert(or_kw <==> is_or_word(w));
                }
                if and_kw {
                    i = e;
                } else if or_kw {
                    acc.push(cur);
                    cur = Vec::new();
                    proof {
                        assert(raw_dnf_view(acc@) =~= acc0.push(cur0.push(c@)));
                        assert(raw_conj_view(cur@) =~= Seq::<CmpRawV>::empty());
                    }
                    i = e;
                } else {
                    acc.push(cur);
                    proof {
                        assert(raw_dnf_view(acc@) =~= acc0.push(cur0.push(c@)));
                    }
                    let t = exec_skip_ws(text, j);
                    if t != n {
                        return Err(PredicateError::SyntaxError(t));
                    }
                    return Ok(acc);
                }
            },
        }
    }
}

/// Resolve parsed comparisons against the schema, exactly as
/// [`spec_parse_predicate`] does: the first unknown column or type
/// mismatch, in reading order, is the error.
#[verifier::loop_isolation(false)]
fn resolve(schema: &Schema, raw: &Vec<Vec<RawCmp>>) -> (r: Result<Predicate, PredicateError>)
    ensures
        match (r, first_resolve_issue(schema.cols@, raw_dnf_view(raw@), 0)) {
            (Ok(p), None) => p@ == resolved_dnf(schema.cols@, raw_dnf_view(raw@)),
            (Err(e), Some(ev)) => e == ev,
            _ => false,
        },
{
    let ghost cols = schema.cols@;
    let ghost rview = raw_dnf_view(raw@);
    let nt = raw.len();
    let mut terms: Vec<Vec<Cmp>> = Vec::new();
    let mut t: usize = 0;
    while t < nt
        invariant
            t <= nt,
            nt == rview.len(),
            terms@.len() == t,
            forall|m: int| 0 <= m < t ==> first_cmp_issue(cols, rview[m], 0) is None,
            forall|m: int|
                0 <= m < t ==> #[trigger] cmp_vec_view(terms@[m]) == resolved_conj(
                    cols,
                    rview[m],
                ),
            first_resolve_issue(cols, rview, 0) == first_resolve_issue(cols, rview, t as int),
        decreases nt - t,
    {
        let conj = &raw[t];
        let nc = conj.len();
        let mut out: Vec<Cmp> = Vec::new();
        let mut k: usize = 0;
        while k < nc
            invariant
                k <= nc,
                nc == rview[t as int].len(),
                out@.len() == k,
                forall|m: int| 0 <= m < k ==> cmp_issue(cols, rview[t as int][m]) is None,
                forall|m: int|
                    0 <= m < k ==> #[trigger] out@[m]@ == resolve_cmp_ok(
                        cols,
                        rview[t as int][m],
                    ),
                first_cmp_issue(cols, rview[t as int], 0) == first_cmp_issue(
                    cols,
                    rview[t as int],
                    k as int,
                ),
            decreases nc - k,
        {
            proof {
                assert(rview[t as int][k as int] == conj@[k as int]@);
            }
            let rc = &conj[k];
            match schema.col_named(&rc.name) {
                None => {
                    return Err(PredicateError::UnknownColumn);
                },
                Some(ci) => {
                    proof {
                        assert(schema.cols.len() == cols.len());
                        Schema::lemma_col_named_bounds(cols, rc.name@, 0);
                    }
                    let ok = match (&schema.cols[ci].ctype, &rc.lit) {
                        (ColumnType::Int32, Lit::Int(_)) => true,
                        (ColumnType::Utf8, Lit::Str(_)) => true,
                        _ => false,
                    };
                    if !ok {
                        return Err(PredicateError::TypeMismatch);
                    }
                    out.push(Cmp { col: ci, op: rc.op, lit: rc.lit.duplicate() });
                    proof {
                        assert(out@[k as int]@ == resolve_cmp_ok(cols, rview[t as int][k as int]));
                    }
                },
            }
            k += 1;
        }
        terms.push(out);
        t += 1;
    }
    let p = Predicate { terms };
    proof {
        assert forall|m: int| 0 <= m < nt implies p@[m] == resolved_dnf(cols, rview)[m] by {
            assert(cmp_vec_view(terms@[m]) == resolved_conj(cols, rview[m]));
        }
        assert(p@ =~= resolved_dnf(cols, rview));
    }
    Ok(p)
}

/// Every resolved comparison is well formed for the schema.
pub proof fn lemma_resolved_wf(cols: Seq<ColumnDef>, dnf: Seq<Seq<CmpRawV>>)
    requires
        first_resolve_issue(cols, dnf, 0) is None,
        cols.len() <= usize::MAX,
    ensures
        dnf_wf(resolved_dnf(cols, dnf), cols),
{
    lemma_first_resolve_issue_none(cols, dnf, 0);
    assert forall|t: int, k: int|
        0 <= t < resolved_dnf(cols, dnf).len() && 0 <= k < resolved_dnf(cols, dnf)[t].len()
        implies #[trigger] cmp_wf(resolved_dnf(cols, dnf)[t][k], cols) by {
        lemma_first_cmp_issue_none(cols, dnf[t], 0);
        assert(cmp_issue(cols, dnf[t][k]) is None);
        let c = dnf[t][k];
        let ci = Schema::spec_col_named_from(cols, c.name, 0)->Some_0;
        crate::schema::Schema::lemma_col_named_bounds(cols, c.name, 0);
        assert(resolved_dnf(cols, dnf)[t][k] == resolve_cmp_ok(cols, c));
    }
}

proof fn lemma_first_cmp_issue_none(cols: Seq<ColumnDef>, conj: Seq<CmpRawV>, k: int)
    requires
        0 <= k <= conj.len(),
    ensures
        first_cmp_issue(cols, conj, k) is None <==> (forall|m: int|
            k <= m < conj.len() ==> #[trigger] cmp_issue(cols, conj[m]) is None),
    decreases conj.len() - k,
{
    if k < conj.len() {
        lemma_first_cmp_issue_none(cols, conj, k + 1);
    }
}

proof fn lemma_first_resolve_issue_none(cols: Seq<ColumnDef>, dnf: Seq<Seq<CmpRawV>>, t: int)
    requires
        0 <= t <= dnf.len(),
    ensures
        first_resolve_issue(cols, dnf, t) is None <==> (forall|m: int|
            t <= m < dnf.len() ==> #[trigger] first_cmp_issue(cols, dnf[m], 0) is None),
    decreases dnf.len() - t,
{
    if t < dnf.len() {
        lemma_first_resolve_issue_none(cols, dnf, t + 1);
    }
}

/// Parse predicate text against a schema.
///
/// Returns exactly what [`spec_parse_predicate`] denotes: the same
/// predicate, or the same error, for the same text and schema.
pub fn parse_predicate(text: &Vec<u8>, schema: &Schema) -> (r: Result<
    Predicate,
    PredicateError,
>)
    ensures
        match (r, spec_parse_predicate(text@, schema.cols@)) {
            (Ok(p), Ok(pv)) => p@ == pv && dnf_wf(p@, schema.cols@),
            (Err(e), Err(ev)) => e == ev,
            _ => false,
        },
{
    match parse_raw(text) {
        Err(e) => Err(e),
        Ok(raw) => match resolve(schema, &raw) {
            Err(e) => Err(e),
            Ok(p) => {
                proof {
                    assert(schema.cols.len() == schema.cols@.len());
                    lemma_resolved_wf(schema.cols@, raw_dnf_view(raw@));
                }
                Ok(p)
            },
        },
    }
}

// ---------------------------------------------------------------------
// Evaluation.
/// Strict lexicographic comparison of byte strings.
pub fn bytes_lt(a: &Vec<u8>, b: &Vec<u8>) -> (r: bool)
    ensures
        r == lex_lt(a@, b@),
{
    let alen = a.len();
    let blen = b.len();
    let mut i: usize = 0;
    proof {
        assert(a@.skip(0) =~= a@);
        assert(b@.skip(0) =~= b@);
    }
    while i < alen && i < blen
        invariant
            i <= alen,
            i <= blen,
            alen == a@.len(),
            blen == b@.len(),
            lex_lt(a@, b@) == lex_lt(a@.skip(i as int), b@.skip(i as int)),
        decreases alen - i,
    {
        let x = a[i];
        let y = b[i];
        proof {
            assert(a@.skip(i as int)[0] == a@[i as int]);
            assert(b@.skip(i as int)[0] == b@[i as int]);
        }
        if x < y {
            return true;
        }
        if x > y {
            return false;
        }
        proof {
            assert(a@.skip(i as int).drop_first() =~= a@.skip(i as int + 1));
            assert(b@.skip(i as int).drop_first() =~= b@.skip(i as int + 1));
        }
        i += 1;
    }
    proof {
        assert(a@.skip(i as int).len() == alen - i);
        assert(b@.skip(i as int).len() == blen - i);
    }
    i < blen
}

/// Evaluate one comparison against a row it is compatible with.
fn eval_cmp(c: &Cmp, row: &Vec<Value>) -> (r: bool)
    requires
        cmp_compatible(c@, row_view(row@)),
    ensures
        r == spec_eval_cmp(c@, row_view(row@)),
{
    proof {
        assert(row_view(row@)[c.col as int] == row@[c.col as int]@);
    }
    match (&row[c.col], &c.lit) {
        (Value::Int32(x), Lit::Int(y)) => match c.op {
            CmpOp::Eq => *x == *y,
            CmpOp::Ne => *x != *y,
            CmpOp::Lt => *x < *y,
            CmpOp::Le => *x <= *y,
            CmpOp::Gt => *x > *y,
            CmpOp::Ge => *x >= *y,
        },
        (Value::Utf8(s), Lit::Str(t)) => match c.op {
            CmpOp::Eq => crate::value::bytes_eq(s, t),
            CmpOp::Ne => !crate::value::bytes_eq(s, t),
            CmpOp::Lt => bytes_lt(s, t),
            CmpOp::Le => !bytes_lt(t, s),
            CmpOp::Gt => bytes_lt(t, s),
            CmpOp::Ge => !bytes_lt(s, t),
        },
        _ => vstd::pervasive::unreached(),
    }
}

/// Evaluate a predicate against a row it is compatible with. Pure: the
/// result depends only on the predicate and the row.
#[verifier::loop_isolation(false)]
pub fn evaluate(p: &Predicate, row: &Vec<Value>) -> (r: bool)
    requires
        dnf_compatible(p@, row_view(row@)),
    ensures
        r == pred_holds(p@, row_view(row@)),
{
    let ghost rowv = row_view(row@);
    let nt = p.terms.len();
    let mut t: usize = 0;
    while t < nt
        invariant
            t <= nt,
            nt == p@.len(),
            forall|m: int| 0 <= m < t ==> !(#[trigger] conj_holds(p@[m], rowv)),
        decreases nt - t,
    {
        let conj = &p.terms[t];
        let nc = conj.len();
        let mut all = true;
        let mut k: usize = 0;
        while k < nc
            invariant
                k <= nc,
                nc == p@[t as int].len(),
                all <==> (forall|m: int|
                    0 <= m < k ==> #[trigger] spec_eval_cmp(p@[t as int][m], rowv)),
            decreases nc - k,
        {
            proof {
                assert(p@[t as int][k as int] == conj@[k as int]@);
                assert(cmp_compatible(p@[t as int][k as int], rowv));
            }
            if !eval_cmp(&conj[k], row) {
                all = false;
            }
            k += 1;
        }
        if all {
            assert(conj_holds(p@[t as int], rowv));
            return true;
        }
        t += 1;
    }
    false
}

/// A well-formed predicate can be evaluated against any conforming row.
pub proof fn lemma_wf_compatible(dnf: Seq<Seq<CmpV>>, cols: Seq<ColumnDef>, row: Seq<ValueV>)
    requires
        dnf_wf(dnf, cols),
        crate::schema::row_conforms(cols, row),
    ensures
        dnf_compatible(dnf, row),
{
    assert forall|t: int, k: int|
        0 <= t < dnf.len() && 0 <= k < dnf[t].len() implies #[trigger] cmp_compatible(
        dnf[t][k],
        row,
    ) by {
        assert(cmp_wf(dnf[t][k], cols));
        assert(crate::schema::kind_matches(row[dnf[t][k].col as int], cols[dnf[t][k].col as int].ctype));
    }
}

} // verus!
