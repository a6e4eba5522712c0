use vstd::prelude::*;
use vstd::pervasive::VecAdditionalExecFns;
use crate::position::{PosModel, Position};
use crate::token::{bytes_eq, Token, TokenModel};
use crate::token_types::TokenTypes;
use crate::error::{ErrModel, Error, ErrorKind};
use crate::lexer::is_digit_byte;
use crate::nodes::{assoc_set, elems_model, lemma_array_node_model, lemma_object_node_model, node_model, pairs_fold, pairs_model, model_span, Node, NodeModel};

verus! {

// ---------------------------------------------------------------------------
// Tokens as the parser sees them: a cursor over a fixed sequence, with an
// end-of-input token synthesized past the last real one.
// ---------------------------------------------------------------------------

/// Where the synthesized end-of-input token stands: at the end of the last
/// real token, or at the very start of the buffer when there is none.
pub open spec fn eof_at(ts: Seq<TokenModel>) -> PosModel {
    if ts.len() == 0 {
        PosModel { index: 0, ln: 1, cn: 1 }
    } else {
        ts.last().end
    }
}

/// The token at cursor `i`: the real one inside the sequence, the
/// synthesized end-of-input token beyond it.
pub open spec fn tok_at(ts: Seq<TokenModel>, i: int) -> TokenModel {
    if 0 <= i < ts.len() {
        ts[i]
    } else {
        TokenModel { kind: TokenTypes::Eof, text: Seq::empty(), start: eof_at(ts), end: eof_at(ts) }
    }
}

/// A diagnostic spanning exactly one token.
pub open spec fn err_at(kind: ErrorKind, t: TokenModel) -> ErrModel {
    ErrModel { kind, start: t.start, end: t.end }
}

/// The literal bytes of the three reserved words.
pub open spec fn kw_null() -> Seq<u8> {
    seq![110u8, 117u8, 108u8, 108u8]
}

pub open spec fn kw_true() -> Seq<u8> {
    seq![116u8, 114u8, 117u8, 101u8]
}

pub open spec fn kw_false() -> Seq<u8> {
    seq![102u8, 97u8, 108u8, 115u8, 101u8]
}

// ---------------------------------------------------------------------------
// Numeric literals.
// ---------------------------------------------------------------------------

/// Every byte is an ASCII digit.
pub open spec fn all_digits(t: Seq<u8>) -> bool {
    forall|i: int| 0 <= i < t.len() ==> is_digit_byte(#[trigger] t[i])
}

/// The value of a digit string read in base ten.
pub open spec fn digits_val(t: Seq<u8>) -> int
    decreases t.len(),
{
    if t.len() == 0 {
        0
    } else {
        digits_val(t.drop_last()) * 10 + (t.last() - 48)
    }
}

/// An integer literal the tree can hold: nonempty, all digits, and in range.
pub open spec fn int_ok(t: Seq<u8>) -> bool {
    t.len() > 0 && all_digits(t) && digits_val(t) <= i128::MAX
}

/// The first index at which byte `b` stands, or the length when it is absent.
pub open spec fn find_byte(t: Seq<u8>, b: u8) -> int
    decreases t.len(),
{
    if t.len() == 0 {
        0
    } else if t[0] == b {
        0
    } else {
        1 + find_byte(t.drop_first(), b)
    }
}

/// A nonempty digit string.
pub open spec fn digits1(t: Seq<u8>) -> bool {
    t.len() >= 1 && all_digits(t)
}

/// An unsigned decimal significand: either plain digits, or digits with one
/// dot among them and at least one digit on one of its sides.
pub open spec fn mantissa_ok(t: Seq<u8>) -> bool {
    let k = find_byte(t, 46);
    if k == t.len() {
        digits1(t)
    } else {
        all_digits(t.take(k)) && all_digits(t.skip(k + 1)) && t.len() >= 2
    }
}

/// A float literal the tree can hold: a significand, optionally followed by
/// the letter `e` and a nonempty digit exponent. No signs occur: the lexer
/// never collects them into a number.
pub open spec fn float_ok(t: Seq<u8>) -> bool {
    let k = find_byte(t, 101);
    if k == t.len() {
        mantissa_ok(t)
    } else {
        mantissa_ok(t.take(k)) && digits1(t.skip(k + 1))
    }
}

// ---------------------------------------------------------------------------
// The parsing specification: recursive descent over the token sequence.
// `d` is the container-nesting budget still available; `i` is the cursor.
// Each function returns the parsed value and the cursor after it.
// ---------------------------------------------------------------------------

/// Prefixes parsed members onto the rest of a member list.
pub open spec fn members_glue(
    pre: Seq<(Seq<u8>, NodeModel)>,
    r: Result<(Seq<(Seq<u8>, NodeModel)>, int), ErrModel>,
) -> Result<(Seq<(Seq<u8>, NodeModel)>, int), ErrModel> {
    match r {
        Ok(msj) => Ok((pre + msj.0, msj.1)),
        Err(e) => Err(e),
    }
}

/// Prefixes parsed elements onto the rest of an element list.
pub open spec fn elems_glue(
    pre: Seq<NodeModel>,
    r: Result<(Seq<NodeModel>, int), ErrModel>,
) -> Result<(Seq<NodeModel>, int), ErrModel> {
    match r {
        Ok(vsj) => Ok((pre + vsj.0, vsj.1)),
        Err(e) => Err(e),
    }
}

/// One value: a reserved word, a scalar literal, or a nested container.
/// Opening a container spends one unit of the nesting budget; at zero the
/// parse fails rather than recurse further.
pub open spec fn parse_value(ts: Seq<TokenModel>, d: int, i: int) -> Result<(NodeModel, int), ErrModel>
    decreases d, ts.len() - i, 0int
    when 0 <= d && 0 <= i <= ts.len()
{
    let t = tok_at(ts, i);
    if t.kind == TokenTypes::Keyword && t.text == kw_null() {
        Ok((NodeModel::Null { start: t.start, end: t.end }, i + 1))
    } else if t.kind == TokenTypes::Keyword && t.text == kw_false() {
        Ok((NodeModel::Bool { val: false, start: t.start, end: t.end }, i + 1))
    } else if t.kind == TokenTypes::Keyword && t.text == kw_true() {
        Ok((NodeModel::Bool { val: true, start: t.start, end: t.end }, i + 1))
    } else if t.kind == TokenTypes::ObjectOpen {
        if d <= 0 {
            Err(err_at(ErrorKind::MaxDepthExceeded, t))
        } else {
            parse_object(ts, d - 1, i)
        }
    } else if t.kind == TokenTypes::ArrayOpen {
        if d <= 0 {
            Err(err_at(ErrorKind::MaxDepthExceeded, t))
        } else {
            parse_array(ts, d - 1, i)
        }
    } else if t.kind == TokenTypes::Int {
        if int_ok(t.text) {
            Ok((NodeModel::Int { val: digits_val(t.text), start: t.start, end: t.end }, i + 1))
        } else {
            Err(err_at(ErrorKind::InvalidNumber, t))
        }
    } else if t.kind == TokenTypes::Float {
        if float_ok(t.text) {
            Ok((NodeModel::Float { literal: t.text, start: t.start, end: t.end }, i + 1))
        } else {
            Err(err_at(ErrorKind::InvalidNumber, t))
        }
    } else if t.kind == TokenTypes::Str {
        Ok((NodeModel::Str { text: t.text, start: t.start, end: t.end }, i + 1))
    } else {
        Err(err_at(ErrorKind::ExpectedValue, t))
    }
}

/// One object member: a string key, a colon, a value.
pub open spec fn parse_member(ts: Seq<TokenModel>, d: int, i: int) -> Result<((Seq<u8>, NodeModel), int), ErrModel>
    decreases d, ts.len() - i, 1int
    when 0 <= d && 0 <= i <= ts.len()
{
    let key = tok_at(ts, i);
    if key.kind != TokenTypes::Str {
        Err(err_at(ErrorKind::ExpectedKey, key))
    } else if tok_at(ts, i + 1).kind != TokenTypes::Colon {
        Err(err_at(ErrorKind::ExpectedColon, key))
    } else {
        match parse_value(ts, d, i + 2) {
            Ok(vj) => Ok(((key.text, vj.0), vj.1)),
            Err(e) => Err(e),
        }
    }
}

/// A comma-separated member list, in the order written.
pub open spec fn parse_members(ts: Seq<TokenModel>, d: int, i: int) -> Result<(Seq<(Seq<u8>, NodeModel)>, int), ErrModel>
    decreases d, ts.len() - i, 2int
    when 0 <= d && 0 <= i <= ts.len()
{
    match parse_member(ts, d, i) {
        Err(e) => Err(e),
        Ok(kvj) => {
            if tok_at(ts, kvj.1).kind == TokenTypes::Comma {
                if i < kvj.1 + 1 {
                    members_glue(seq![kvj.0], parse_members(ts, d, kvj.1 + 1))
                } else {
                    // never reached: a member consumes at least one token,
                    // so the cursor has moved; this branch only keeps the
                    // recursion visibly well-founded
                    Err(err_at(ErrorKind::ExpectedValue, tok_at(ts, i)))
                }
            } else {
                Ok((seq![kvj.0], kvj.1))
            }
        },
    }
}

/// A comma-separated element list, in the order written.
pub open spec fn parse_elems(ts: Seq<TokenModel>, d: int, i: int) -> Result<(Seq<NodeModel>, int), ErrModel>
    decreases d, ts.len() - i, 2int
    when 0 <= d && 0 <= i <= ts.len()
{
    match parse_value(ts, d, i) {
        Err(e) => Err(e),
        Ok(vj) => {
            if tok_at(ts, vj.1).kind == TokenTypes::Comma {
                if i < vj.1 + 1 {
                    elems_glue(seq![vj.0], parse_elems(ts, d, vj.1 + 1))
                } else {
                    // never reached, as in parse_members
                    Err(err_at(ErrorKind::ExpectedValue, tok_at(ts, i)))
                }
            } else {
                Ok((seq![vj.0], vj.1))
            }
        },
    }
}

/// One object: `{`, an optionally empty member list, `}`. A repeated key
/// keeps its first position and the value written last. The node spans the
/// opening brace through the closing one.
pub open spec fn parse_object(ts: Seq<TokenModel>, d: int, i: int) -> Result<(NodeModel, int), ErrModel>
    decreases d, ts.len() - i, 3int
    when 0 <= d && 0 <= i <= ts.len()
{
    let open = tok_at(ts, i);
    if open.kind != TokenTypes::ObjectOpen {
        Err(err_at(ErrorKind::ExpectedOpenDelimiter, open))
    } else if tok_at(ts, i + 1).kind == TokenTypes::ObjectClose {
        Ok((
            NodeModel::Object {
                pairs: Seq::empty(),
                start: open.start,
                end: tok_at(ts, i + 1).end,
            },
            i + 2,
        ))
    } else {
        match parse_members(ts, d, i + 1) {
            Err(e) => Err(e),
            Ok(msj) => {
                let close = tok_at(ts, msj.1);
                if close.kind == TokenTypes::ObjectClose {
                    Ok((
                        NodeModel::Object {
                            pairs: pairs_fold(msj.0),
                            start: open.start,
                            end: close.end,
                        },
                        msj.1 + 1,
                    ))
                } else {
                    Err(ErrModel {
                        kind: ErrorKind::ExpectedCloseDelimiter,
                        start: open.start,
                        end: close.end,
                    })
                }
            },
        }
    }
}

/// One array: `[`, an optionally empty element list, `]`, elements kept in
/// the order written. The node spans the opening bracket through the
/// closing one.
pub open spec fn parse_array(ts: Seq<TokenModel>, d: int, i: int) -> Result<(NodeModel, int), ErrModel>
    decreases d, ts.len() - i, 3int
    when 0 <= d && 0 <= i <= ts.len()
{
    let open = tok_at(ts, i);
    if open.kind != TokenTypes::ArrayOpen {
        Err(err_at(ErrorKind::ExpectedOpenDelimiter, open))
    } else if tok_at(ts, i + 1).kind == TokenTypes::ArrayClose {
        Ok((
            NodeModel::Array {
                elems: Seq::empty(),
                start: open.start,
                end: tok_at(ts, i + 1).end,
            },
            i + 2,
        ))
    } else {
        match parse_elems(ts, d, i + 1) {
            Err(e) => Err(e),
            Ok(vsj) => {
                let close = tok_at(ts, vsj.1);
                if close.kind == TokenTypes::ArrayClose {
                    Ok((
                        NodeModel::Array { elems: vsj.0, start: open.start, end: close.end },
                        vsj.1 + 1,
                    ))
                } else {
                    Err(ErrModel {
                        kind: ErrorKind::ExpectedCloseDelimiter,
                        start: open.start,
                        end: close.end,
                    })
                }
            },
        }
    }
}

/// A whole document: exactly one root object, with nothing but end-of-input
/// after it. `maxd` is the greatest container nesting allowed; the root
/// object itself spends the first unit. Anything left after the root makes
/// the parse fail with the root's own span.
pub open spec fn parse_spec(ts: Seq<TokenModel>, maxd: int, i: int) -> Result<NodeModel, ErrModel> {
    if maxd <= 0 {
        Err(err_at(ErrorKind::MaxDepthExceeded, tok_at(ts, i)))
    } else {
        match parse_object(ts, maxd - 1, i) {
            Err(e) => Err(e),
            Ok(nj) => {
                if tok_at(ts, nj.1).kind == TokenTypes::Eof {
                    Ok(nj.0)
                } else {
                    Err(ErrModel {
                        kind: ErrorKind::UnexpectedTrailingInput,
                        start: model_span(nj.0).0,
                        end: model_span(nj.0).1,
                    })
                }
            },
        }
    }
}


// ---------------------------------------------------------------------------
// Digit strings: facts and executable conversion.
// ---------------------------------------------------------------------------

pub proof fn lemma_digits_val_nonneg(t: Seq<u8>)
    requires
        all_digits(t),
    ensures
        digits_val(t) >= 0,
    decreases t.len(),
{
    if t.len() > 0 {
        assert(all_digits(t.drop_last()));
        lemma_digits_val_nonneg(t.drop_last());
    }
}

/// Reading one more digit multiplies by ten and adds it.
pub proof fn lemma_digits_val_step(t: Seq<u8>, i: int)
    requires
        0 <= i < t.len(),
    ensures
        digits_val(t.take(i + 1)) == digits_val(t.take(i)) * 10 + (t[i] - 48),
{
    assert(t.take(i + 1).drop_last() =~= t.take(i));
    assert(t.take(i + 1).last() == t[i]);
}

/// A digit string is worth at least any of its prefixes.
pub proof fn lemma_digits_val_mono(t: Seq<u8>, k: int)
    requires
        all_digits(t),
        0 <= k <= t.len(),
    ensures
        digits_val(t) >= digits_val(t.take(k)),
    decreases t.len() - k,
{
    if k == t.len() {
        assert(t.take(k) =~= t);
    } else {
        assert(all_digits(t.take(k))) by {
            assert(forall|i: int| 0 <= i < k ==> t.take(k)[i] == t[i]);
        }
        lemma_digits_val_step(t, k);
        lemma_digits_val_nonneg(t.take(k));
        lemma_digits_val_mono(t, k + 1);
    }
}

/// Read a digit vector as an integer, refusing anything that is not a
/// nonempty in-range digit string.
pub fn int_from_digits(v: &Vec<u8>) -> (r: Option<i128>)
    ensures
        match r {
            Some(x) => int_ok(v@) && x == digits_val(v@),
            None => !int_ok(v@),
        },
{
    let n = v.len();
    if n == 0 {
        return None;
    }
    let mut acc: i128 = 0;
    let mut i: usize = 0;
    while i < n
        invariant
            n == v@.len(),
            0 <= i <= n,
            all_digits(v@.take(i as int)),
            acc == digits_val(v@.take(i as int)),
            0 <= acc <= i128::MAX,
        decreases n - i,
    {
        let b = v[i];
        if !(48 <= b && b <= 57) {
            assert(!all_digits(v@)) by {
                assert(v@[i as int] == b);
            }
            return None;
        }
        let d: i128 = (b - 48) as i128;
        proof {
            lemma_digits_val_step(v@, i as int);
        }
        if acc > (i128::MAX - d) / 10 {
            proof {
                assert(acc * 10 + d > i128::MAX) by (nonlinear_arith)
                    requires
                        acc > (i128::MAX - d) / 10,
                        0 <= d <= 9,
                ;
                if all_digits(v@) {
                    lemma_digits_val_mono(v@, i + 1);
                }
            }
            return None;
        }
        proof {
            assert(acc * 10 + d <= i128::MAX) by (nonlinear_arith)
                requires
                    0 <= acc <= (i128::MAX - d) / 10,
                    0 <= d <= 9,
            ;
            assert(acc * 10 >= 0) by (nonlinear_arith)
                requires
                    acc >= 0,
            ;
        }
        acc = acc * 10 + d;
        i = i + 1;
        proof {
            assert(all_digits(v@.take(i as int))) by {
                assert(forall|k: int| 0 <= k < i ==> v@.take(i as int)[k] == v@[k]);
            }
        }
    }
    proof {
        assert(v@.take(n as int) =~= v@);
    }
    Some(acc)
}

// ---------------------------------------------------------------------------
// Finding a byte, and digit ranges: the float literal check.
// ---------------------------------------------------------------------------

/// What pins `find_byte` down: everything before the first hit misses, and
/// the hit (when inside the string) is a hit.
pub proof fn lemma_find_byte_is(t: Seq<u8>, b: u8, j: int)
    requires
        0 <= j <= t.len(),
        forall|i: int| 0 <= i < j ==> t[i] != b,
        j < t.len() ==> t[j] == b,
    ensures
        find_byte(t, b) == j,
    decreases t.len(),
{
    if t.len() == 0 {
    } else if t[0] == b {
        assert(j == 0);
    } else {
        assert(j >= 1);
        lemma_find_byte_is(t.drop_first(), b, j - 1);
    }
}

/// Whether every byte of `v` in `[from, to)` is a digit.
pub fn all_digits_range(v: &Vec<u8>, from: usize, to: usize) -> (r: bool)
    requires
        from <= to <= v@.len(),
    ensures
        r == all_digits(v@.subrange(from as int, to as int)),
{
    let mut i: usize = from;
    while i < to
        invariant
            from <= i <= to <= v@.len(),
            forall|k: int| from <= k < i ==> is_digit_byte(#[trigger] v@[k]),
        decreases to - i,
    {
        let b = v[i];
        if !(48 <= b && b <= 57) {
            assert(!all_digits(v@.subrange(from as int, to as int))) by {
                assert(v@.subrange(from as int, to as int)[i - from] == b);
            }
            return false;
        }
        i = i + 1;
    }
    assert(all_digits(v@.subrange(from as int, to as int))) by {
        assert(forall|k: int| 0 <= k < to - from
            ==> v@.subrange(from as int, to as int)[k] == v@[k + from]);
    }
    true
}

/// The first index in `[0, end)` at which `b` stands in `v`, or `end`.
pub fn find_byte_before(v: &Vec<u8>, b: u8, end: usize) -> (r: usize)
    requires
        end <= v@.len(),
    ensures
        r as int == find_byte(v@.take(end as int), b),
        r <= end,
{
    let mut i: usize = 0;
    while i < end
        invariant
            0 <= i <= end <= v@.len(),
            forall|k: int| 0 <= k < i ==> v@[k] != b,
        decreases end - i,
    {
        if v[i] == b {
            proof {
                lemma_find_byte_is(v@.take(end as int), b, i as int);
            }
            return i;
        }
        i = i + 1;
    }
    proof {
        lemma_find_byte_is(v@.take(end as int), b, end as int);
    }
    end
}

/// Whether the bytes before `end` form a valid significand.
fn mantissa_check(v: &Vec<u8>, end: usize) -> (r: bool)
    requires
        end <= v@.len(),
    ensures
        r == mantissa_ok(v@.take(end as int)),
{
    let ghost m = v@.take(end as int);
    let kd = find_byte_before(v, 46, end);
    if kd == end {
        let r = end >= 1 && all_digits_range(v, 0, end);
        proof {
            assert(v@.subrange(0, end as int) =~= m);
        }
        r
    } else {
        let before = all_digits_range(v, 0, kd);
        let after = all_digits_range(v, kd + 1, end);
        proof {
            assert(v@.subrange(0, kd as int) =~= m.take(kd as int));
            assert(v@.subrange(kd as int + 1, end as int) =~= m.skip(kd as int + 1));
        }
        before && after && end >= 2
    }
}

/// Whether the literal is a float the tree can hold.
pub fn check_float(v: &Vec<u8>) -> (r: bool)
    ensures
        r == float_ok(v@),
{
    let n = v.len();
    let ke = find_byte_before(v, 101, n);
    proof {
        assert(v@.take(n as int) =~= v@);
    }
    if ke == n {
        mantissa_check(v, n)
    } else {
        let m_ok = mantissa_check(v, ke);
        let ex_ok = ke + 1 < n && all_digits_range(v, ke + 1, n);
        proof {
            assert(v@.subrange(ke as int + 1, n as int) =~= v@.skip(ke as int + 1));
        }
        m_ok && ex_ok
    }
}

// ---------------------------------------------------------------------------
// The reserved words, tested on raw bytes.
// ---------------------------------------------------------------------------

pub fn kw_is_null(v: &Vec<u8>) -> (r: bool)
    ensures
        r == (v@ == kw_null()),
{
    let r = v.len() == 4 && v[0] == 110 && v[1] == 117 && v[2] == 108 && v[3] == 108;
    proof {
        if r {
            assert(v@ =~= kw_null());
        } else {
            assert(v@ != kw_null());
        }
    }
    r
}

pub fn kw_is_true(v: &Vec<u8>) -> (r: bool)
    ensures
        r == (v@ == kw_true()),
{
    let r = v.len() == 4 && v[0] == 116 && v[1] == 114 && v[2] == 117 && v[3] == 101;
    proof {
        if r {
            assert(v@ =~= kw_true());
        } else {
            assert(v@ != kw_true());
        }
    }
    r
}

pub fn kw_is_false(v: &Vec<u8>) -> (r: bool)
    ensures
        r == (v@ == kw_false()),
{
    let r = v.len() == 5 && v[0] == 102 && v[1] == 97 && v[2] == 108 && v[3] == 115 && v[4] == 101;
    proof {
        if r {
            assert(v@ =~= kw_false());
        } else {
            assert(v@ != kw_false());
        }
    }
    r
}

// ---------------------------------------------------------------------------
// Building an object's member vector: one entry per key, last write wins.
// ---------------------------------------------------------------------------

proof fn lemma_assoc_set_found(pm: Seq<(Seq<u8>, NodeModel)>, j: int, k: Seq<u8>, v: NodeModel)
    requires
        0 <= j < pm.len(),
        pm[j].0 == k,
        forall|t: int| 0 <= t < j ==> pm[t].0 != k,
    ensures
        assoc_set(pm, k, v) == pm.update(j, (k, v)),
    decreases j,
{
    if j == 0 {
        assert(assoc_set(pm, k, v) =~= pm.update(0, (k, v)));
    } else {
        lemma_assoc_set_found(pm.drop_first(), j - 1, k, v);
        assert(seq![pm[0]] + pm.drop_first().update(j - 1, (k, v)) =~= pm.update(j, (k, v)));
    }
}

proof fn lemma_assoc_set_missing(pm: Seq<(Seq<u8>, NodeModel)>, k: Seq<u8>, v: NodeModel)
    requires
        forall|t: int| 0 <= t < pm.len() ==> pm[t].0 != k,
    ensures
        assoc_set(pm, k, v) == pm.push((k, v)),
    decreases pm.len(),
{
    if pm.len() == 0 {
        assert(assoc_set(pm, k, v) =~= pm.push((k, v)));
    } else {
        lemma_assoc_set_missing(pm.drop_first(), k, v);
        assert(seq![pm[0]] + pm.drop_first().push((k, v)) =~= pm.push((k, v)));
    }
}

/// Put one member into the vector: replace the value of an existing key in
/// place, or append a new entry.
fn object_insert(pairs: &mut Vec<(Vec<u8>, Node)>, k: Vec<u8>, v: Node)
    ensures
        pairs_model(final(pairs)@) == assoc_set(pairs_model(old(pairs)@), k@, v@),
{
    let ghost pm = pairs_model(pairs@);
    let n = pairs.len();
    let mut j: usize = 0;
    while j < n
        invariant
            n == pairs@.len(),
            0 <= j <= n,
            pairs@ == old(pairs)@,
            pm == pairs_model(pairs@),
            forall|t: int| 0 <= t < j ==> pm[t].0 != k@,
        decreases n - j,
    {
        if bytes_eq(&pairs[j].0, k.as_slice()) {
            assert(pm[j as int].0 == k@);
            pairs.set(j, (k, v));
            proof {
                lemma_assoc_set_found(pm, j as int, k@, v@);
                assert(pairs_model(pairs@) =~= pm.update(j as int, (k@, v@)));
            }
            return;
        }
        proof {
            assert(pm[j as int].0 == pairs@[j as int].0@);
        }
        j = j + 1;
    }
    pairs.push((k, v));
    proof {
        lemma_assoc_set_missing(pm, k@, v@);
        assert(pairs_model(pairs@) =~= pm.push((k@, v@)));
    }
}


// ---------------------------------------------------------------------------
// The executable parser.
// ---------------------------------------------------------------------------

/// The container nesting allowed when nothing else is asked for.
pub const DEFAULT_MAX_DEPTH: usize = 64;

/// The parser: a fixed token sequence, a cursor that only moves forward
/// (a consumed token is never re-read), and the container-nesting limit
/// the parse runs under.
#[derive(Debug)]
pub struct Parser {
    pub tokens: Vec<Token>,
    pub index: usize,
    pub max_depth: usize,
}

impl Parser {
    /// The token sequence, seen mathematically.
    pub open spec fn toks(self) -> Seq<TokenModel> {
        self.tokens@.map_values(|t: Token| t@)
    }

    /// The cursor never leaves the sequence (one past the end at most).
    pub open spec fn wf(self) -> bool {
        self.index <= self.tokens@.len()
    }

    /// A parser over the given tokens, at the first one, with the default
    /// nesting limit.
    pub fn new(tokens: Vec<Token>) -> (p: Parser)
        ensures
            p.wf(),
            p.tokens@ == tokens@,
            p.index == 0,
            p.max_depth == DEFAULT_MAX_DEPTH,
    {
        Parser { tokens, index: 0, max_depth: DEFAULT_MAX_DEPTH }
    }

    /// The synthesized end-of-input token: it stands at the end of the last
    /// real token, or at the start of the buffer when there is none.
    pub fn eof_token(&self) -> (t: Token)
        ensures
            t@ == tok_at(self.toks(), self.toks().len() as int),
    {
        let pos = if self.tokens.len() == 0 {
            Position { index: 0, ln: 1, cn: 1 }
        } else {
            self.tokens[self.tokens.len() - 1].pos_end
        };
        let t = Token { tok_type: TokenTypes::Eof, tok_value: Vec::new(), pos_start: pos, pos_end: pos };
        proof {
            assert(t@.text =~= Seq::<u8>::empty());
            if self.tokens@.len() > 0 {
                assert(self.toks().last() == self.tokens@[self.tokens@.len() - 1]@);
            }
        }
        t
    }

    /// The token under the cursor, without moving it.
    pub fn peek(&self) -> (t: Token)
        ensures
            t@ == tok_at(self.toks(), self.index as int),
    {
        if self.index < self.tokens.len() {
            self.tokens[self.index].snapshot()
        } else {
            self.eof_token()
        }
    }

    /// Take the token under the cursor and step past it; past the end the
    /// synthesized end-of-input token comes back and the cursor stays.
    pub fn current_tok(&mut self) -> (t: Token)
        requires
            old(self).wf(),
        ensures
            final(self).wf(),
            final(self).tokens@ == old(self).tokens@,
            final(self).max_depth == old(self).max_depth,
            t@ == tok_at(old(self).toks(), old(self).index as int),
            final(self).index == if old(self).index < old(self).tokens@.len() {
                old(self).index + 1
            } else {
                old(self).index as int
            },
    {
        if self.index < self.tokens.len() {
            let t = self.tokens[self.index].snapshot();
            self.index = self.index + 1;
            t
        } else {
            self.eof_token()
        }
    }

    /// One value, dispatched on the token under the cursor: exactly
    /// `parse_value` of the token sequence, the remaining nesting budget
    /// `d`, and the cursor.
    pub fn atom(&mut self, d: usize) -> (r: Result<Node, Error>)
        requires
            old(self).wf(),
        ensures
            final(self).wf(),
            final(self).tokens@ == old(self).tokens@,
            final(self).max_depth == old(self).max_depth,
            ({
                let sp = parse_value(old(self).toks(), d as int, old(self).index as int);
                match r {
                    Ok(n) => sp == Ok::<(NodeModel, int), ErrModel>((n@, final(self).index as int))
                        && old(self).index < final(self).index,
                    Err(e) => sp == Err::<(NodeModel, int), ErrModel>(e@),
                }
            }),
        decreases self.tokens@.len() + d, self.tokens@.len() - self.index, 0int,
    {
        let t = self.peek();
        if t.tok_type == TokenTypes::Keyword {
            let t2 = self.current_tok();
            if kw_is_null(&t2.tok_value) {
                Ok(Node::NullNode { pos_start: t2.pos_start, pos_end: t2.pos_end })
            } else if kw_is_false(&t2.tok_value) {
                Ok(Node::BoolNode { boolean: false, pos_start: t2.pos_start, pos_end: t2.pos_end })
            } else if kw_is_true(&t2.tok_value) {
                Ok(Node::BoolNode { boolean: true, pos_start: t2.pos_start, pos_end: t2.pos_end })
            } else {
                Err(Error { kind: ErrorKind::ExpectedValue, pos_start: t2.pos_start, pos_end: t2.pos_end })
            }
        } else if t.tok_type == TokenTypes::ObjectOpen {
            if d == 0 {
                Err(Error { kind: ErrorKind::MaxDepthExceeded, pos_start: t.pos_start, pos_end: t.pos_end })
            } else {
                self.models(d - 1)
            }
        } else if t.tok_type == TokenTypes::ArrayOpen {
            if d == 0 {
                Err(Error { kind: ErrorKind::MaxDepthExceeded, pos_start: t.pos_start, pos_end: t.pos_end })
            } else {
                self.array(d - 1)
            }
        } else if t.tok_type == TokenTypes::Int {
            let t2 = self.current_tok();
            match int_from_digits(&t2.tok_value) {
                Some(x) => Ok(Node::IntNode { value: x, pos_start: t2.pos_start, pos_end: t2.pos_end }),
                None => Err(Error { kind: ErrorKind::InvalidNumber, pos_start: t2.pos_start, pos_end: t2.pos_end }),
            }
        } else if t.tok_type == TokenTypes::Float {
            let t2 = self.current_tok();
            if check_float(&t2.tok_value) {
                Ok(Node::FloatNode { literal: t2.tok_value, pos_start: t2.pos_start, pos_end: t2.pos_end })
            } else {
                Err(Error { kind: ErrorKind::InvalidNumber, pos_start: t2.pos_start, pos_end: t2.pos_end })
            }
        } else if t.tok_type == TokenTypes::Str {
            let t2 = self.current_tok();
            Ok(Node::StrNode { string: t2.tok_value, pos_start: t2.pos_start, pos_end: t2.pos_end })
        } else {
            let t2 = self.current_tok();
            Err(Error { kind: ErrorKind::ExpectedValue, pos_start: t2.pos_start, pos_end: t2.pos_end })
        }
    }

    /// One object member: a string key, a colon, a value. Exactly
    /// `parse_member`.
    pub fn model(&mut self, d: usize) -> (r: Result<(Vec<u8>, Node), Error>)
        requires
            old(self).wf(),
        ensures
            final(self).wf(),
            final(self).tokens@ == old(self).tokens@,
            final(self).max_depth == old(self).max_depth,
            ({
                let sp = parse_member(old(self).toks(), d as int, old(self).index as int);
                match r {
                    Ok(kv) => sp == Ok::<((Seq<u8>, NodeModel), int), ErrModel>(
                        ((kv.0@, kv.1@), final(self).index as int),
                    ) && old(self).index < final(self).index,
                    Err(e) => sp == Err::<((Seq<u8>, NodeModel), int), ErrModel>(e@),
                }
            }),
        decreases self.tokens@.len() + d, self.tokens@.len() - self.index, 1int,
    {
        let key = self.current_tok();
        if key.tok_type != TokenTypes::Str {
            return Err(Error { kind: ErrorKind::ExpectedKey, pos_start: key.pos_start, pos_end: key.pos_end });
        }
        let colon = self.current_tok();
        if colon.tok_type != TokenTypes::Colon {
            return Err(Error { kind: ErrorKind::ExpectedColon, pos_start: key.pos_start, pos_end: key.pos_end });
        }
        match self.atom(d) {
            Ok(v) => Ok((key.tok_value, v)),
            Err(e) => Err(e),
        }
    }

    /// One object: `{`, an optionally empty member list, `}`. Exactly
    /// `parse_object`; the members fold into the vector so that a repeated
    /// key keeps its place and the value written last.
    pub fn models(&mut self, d: usize) -> (r: Result<Node, Error>)
        requires
            old(self).wf(),
        ensures
            final(self).wf(),
            final(self).tokens@ == old(self).tokens@,
            final(self).max_depth == old(self).max_depth,
            ({
                let sp = parse_object(old(self).toks(), d as int, old(self).index as int);
                match r {
                    Ok(n) => sp == Ok::<(NodeModel, int), ErrModel>((n@, final(self).index as int))
                        && old(self).index < final(self).index,
                    Err(e) => sp == Err::<(NodeModel, int), ErrModel>(e@),
                }
            }),
        decreases self.tokens@.len() + d, self.tokens@.len() - self.index, 2int,
    {
        let ghost ts = self.toks();
        let ghost i0 = self.index as int;
        let ghost toks0 = self.tokens@;
        let ghost md0 = self.max_depth;
        let open = self.current_tok();
        if open.tok_type != TokenTypes::ObjectOpen {
            return Err(Error { kind: ErrorKind::ExpectedOpenDelimiter, pos_start: open.pos_start, pos_end: open.pos_end });
        }
        let nxt = self.peek();
        if nxt.tok_type == TokenTypes::ObjectClose {
            let close = self.current_tok();
            let empty_pairs: Vec<(Vec<u8>, Node)> = Vec::new();
            proof {
                lemma_object_node_model(empty_pairs, open.pos_start, close.pos_end);
                assert(pairs_model(empty_pairs@) =~= Seq::<(Seq<u8>, NodeModel)>::empty());
            }
            let node = Node::ObjectNode { pairs: empty_pairs, pos_start: open.pos_start, pos_end: close.pos_end };
            return Ok(node);
        }
        let mut pairs: Vec<(Vec<u8>, Node)> = Vec::new();
        let ghost mut ms: Seq<(Seq<u8>, NodeModel)> = Seq::empty();
        let ghost im = self.index as int;
        proof {
            assert(pairs_model(pairs@) =~= pairs_fold(ms));
        }
        loop
            invariant_except_break
                self.wf(),
                toks0 == old(self).tokens@,
                md0 == old(self).max_depth,
                i0 == old(self).index as int,
                self.tokens@ == toks0,
                self.max_depth == md0,
                ts == self.toks(),
                ts == old(self).toks(),
                im == i0 + 1,
                im <= self.index as int <= ts.len(),
                tok_at(ts, i0).kind == TokenTypes::ObjectOpen,
                tok_at(ts, i0 + 1).kind != TokenTypes::ObjectClose,
                open@ == tok_at(ts, i0),
                parse_members(ts, d as int, im) == members_glue(
                    ms,
                    parse_members(ts, d as int, self.index as int),
                ),
                pairs_model(pairs@) == pairs_fold(ms),
            ensures
                self.wf(),
                self.tokens@ == toks0,
                self.max_depth == md0,
                ts == self.toks(),
                im == i0 + 1,
                i0 < self.index as int <= ts.len(),
                tok_at(ts, i0).kind == TokenTypes::ObjectOpen,
                tok_at(ts, i0 + 1).kind != TokenTypes::ObjectClose,
                open@ == tok_at(ts, i0),
                parse_members(ts, d as int, im) == Ok::<(Seq<(Seq<u8>, NodeModel)>, int), ErrModel>(
                    (ms, self.index as int),
                ),
                pairs_model(pairs@) == pairs_fold(ms),
            decreases ts.len() - self.index,
        {
            let ghost icur = self.index as int;
            let ghost ms_old = ms;
            let m = self.model(d);
            match m {
                Err(e) => {
                    proof {
                        assert(parse_members(ts, d as int, icur) == Err::<(Seq<(Seq<u8>, NodeModel)>, int), ErrModel>(e@));
                    }
                    return Err(e);
                },
                Ok((k, v)) => {
                    let ghost kv = (k@, v@);
                    let ghost j = self.index as int;
                    object_insert(&mut pairs, k, v);
                    proof {
                        ms = ms.push(kv);
                        assert(ms.drop_last() =~= ms_old);
                    }
                    let c = self.peek();
                    if c.tok_type == TokenTypes::Comma {
                        let _comma = self.current_tok();
                        proof {
                            assert(parse_members(ts, d as int, icur) == members_glue(
                                seq![kv],
                                parse_members(ts, d as int, j + 1),
                            ));
                            match parse_members(ts, d as int, j + 1) {
                                Ok(p) => {
                                    assert(ms_old + (seq![kv] + p.0) =~= ms + p.0);
                                },
                                Err(_) => {},
                            }
                        }
                    } else {
                        proof {
                            assert(parse_members(ts, d as int, icur)
                                == Ok::<(Seq<(Seq<u8>, NodeModel)>, int), ErrModel>((seq![kv], j)));
                            assert(ms_old + seq![kv] =~= ms);
                        }
                        break;
                    }
                },
            }
        }
        let close = self.current_tok();
        if close.tok_type == TokenTypes::ObjectClose {
            proof {
                lemma_object_node_model(pairs, open.pos_start, close.pos_end);
            }
            let node = Node::ObjectNode { pairs, pos_start: open.pos_start, pos_end: close.pos_end };
            Ok(node)
        } else {
            Err(Error { kind: ErrorKind::ExpectedCloseDelimiter, pos_start: open.pos_start, pos_end: close.pos_end })
        }
    }

    /// One array: `[`, an optionally empty element list, `]`. Exactly
    /// `parse_array`, elements kept in the order written.
    pub fn array(&mut self, d: usize) -> (r: Result<Node, Error>)
        requires
            old(self).wf(),
        ensures
            final(self).wf(),
            final(self).tokens@ == old(self).tokens@,
            final(self).max_depth == old(self).max_depth,
            ({
                let sp = parse_array(old(self).toks(), d as int, old(self).index as int);
                match r {
                    Ok(n) => sp == Ok::<(NodeModel, int), ErrModel>((n@, final(self).index as int))
                        && old(self).index < final(self).index,
                    Err(e) => sp == Err::<(NodeModel, int), ErrModel>(e@),
                }
            }),
        decreases self.tokens@.len() + d, self.tokens@.len() - self.index, 2int,
    {
        let ghost ts = self.toks();
        let ghost i0 = self.index as int;
        let ghost toks0 = self.tokens@;
        let ghost md0 = self.max_depth;
        let open = self.current_tok();
        if open.tok_type != TokenTypes::ArrayOpen {
            return Err(Error { kind: ErrorKind::ExpectedOpenDelimiter, pos_start: open.pos_start, pos_end: open.pos_end });
        }
        let nxt = self.peek();
        if nxt.tok_type == TokenTypes::ArrayClose {
            let close = self.current_tok();
            let empty_elems: Vec<Node> = Vec::new();
            proof {
                lemma_array_node_model(empty_elems, open.pos_start, close.pos_end);
                assert(elems_model(empty_elems@) =~= Seq::<NodeModel>::empty());
            }
            let node = Node::ArrayNode { array: empty_elems, pos_start: open.pos_start, pos_end: close.pos_end };
            return Ok(node);
        }
        let mut array: Vec<Node> = Vec::new();
        let ghost mut vs: Seq<NodeModel> = Seq::empty();
        let ghost im = self.index as int;
        proof {
            assert(elems_model(array@) =~= vs);
        }
        loop
            invariant_except_break
                self.wf(),
                toks0 == old(self).tokens@,
                md0 == old(self).max_depth,
                i0 == old(self).index as int,
                self.tokens@ == toks0,
                self.max_depth == md0,
                ts == self.toks(),
                ts == old(self).toks(),
                im == i0 + 1,
                im <= self.index as int <= ts.len(),
                tok_at(ts, i0).kind == TokenTypes::ArrayOpen,
                tok_at(ts, i0 + 1).kind != TokenTypes::ArrayClose,
                open@ == tok_at(ts, i0),
                parse_elems(ts, d as int, im) == elems_glue(
                    vs,
                    parse_elems(ts, d as int, self.index as int),
                ),
                elems_model(array@) == vs,
            ensures
                self.wf(),
                self.tokens@ == toks0,
                self.max_depth == md0,
                ts == self.toks(),
                im == i0 + 1,
                i0 < self.index as int <= ts.len(),
                tok_at(ts, i0).kind == TokenTypes::ArrayOpen,
                tok_at(ts, i0 + 1).kind != TokenTypes::ArrayClose,
                open@ == tok_at(ts, i0),
                parse_elems(ts, d as int, im) == Ok::<(Seq<NodeModel>, int), ErrModel>(
                    (vs, self.index as int),
                ),
                elems_model(array@) == vs,
            decreases ts.len() - self.index,
        {
            let ghost icur = self.index as int;
            let ghost vs_old = vs;
            let m = self.atom(d);
            match m {
                Err(e) => {
                    proof {
                        assert(parse_elems(ts, d as int, icur) == Err::<(Seq<NodeModel>, int), ErrModel>(e@));
                    }
                    return Err(e);
                },
                Ok(v) => {
                    let ghost j = self.index as int;
                    let ghost vm = v@;
                    array.push(v);
                    proof {
                        vs = vs.push(vm);
                        assert(elems_model(array@) =~= vs);
                    }
                    let c = self.peek();
                    if c.tok_type == TokenTypes::Comma {
                        let _comma = self.current_tok();
                        proof {
                            assert(parse_elems(ts, d as int, icur) == elems_glue(
                                seq![vm],
                                parse_elems(ts, d as int, j + 1),
                            ));
                            match parse_elems(ts, d as int, j + 1) {
                                Ok(p) => {
                                    assert(vs_old + (seq![vm] + p.0) =~= vs + p.0);
                                },
                                Err(_) => {},
                            }
                        }
                    } else {
                        proof {
                            assert(parse_elems(ts, d as int, icur)
                                == Ok::<(Seq<NodeModel>, int), ErrModel>((seq![vm], j)));
                            assert(vs_old + seq![vm] =~= vs);
                        }
                        break;
                    }
                },
            }
        }
        let close = self.current_tok();
        if close.tok_type == TokenTypes::ArrayClose {
            proof {
                lemma_array_node_model(array, open.pos_start, close.pos_end);
            }
            let node = Node::ArrayNode { array, pos_start: open.pos_start, pos_end: close.pos_end };
            Ok(node)
        } else {
            Err(Error { kind: ErrorKind::ExpectedCloseDelimiter, pos_start: open.pos_start, pos_end: close.pos_end })
        }
    }

    /// Read one whole document from the cursor on: exactly one root
    /// object, then end of input, under the configured nesting limit.
    /// Exactly `parse_spec`.
    pub fn parse(&mut self) -> (r: Result<Node, Error>)
        requires
            old(self).wf(),
        ensures
            final(self).wf(),
            final(self).tokens@ == old(self).tokens@,
            final(self).max_depth == old(self).max_depth,
            ({
                let sp = parse_spec(old(self).toks(), old(self).max_depth as int, old(self).index as int);
                match r {
                    Ok(n) => sp == Ok::<NodeModel, ErrModel>(n@),
                    Err(e) => sp == Err::<NodeModel, ErrModel>(e@),
                }
            }),
    {
        if self.max_depth == 0 {
            let t = self.peek();
            return Err(Error { kind: ErrorKind::MaxDepthExceeded, pos_start: t.pos_start, pos_end: t.pos_end });
        }
        let d = self.max_depth - 1;
        match self.models(d) {
            Err(e) => Err(e),
            Ok(obj) => {
                let after = self.current_tok();
                if after.tok_type != TokenTypes::Eof {
                    let (ps, pe) = obj.get_pos();
                    Err(Error { kind: ErrorKind::UnexpectedTrailingInput, pos_start: ps, pos_end: pe })
                } else {
                    Ok(obj)
                }
            },
        }
    }
}

} // verus!
