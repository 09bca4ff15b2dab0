//! The objects that Lean hands over and takes back, and the words and sizes by which they are
//! laid out.
use crate::ids::Fault;
use crate::search::DFSResult;
use vstd::prelude::*;

verus! {

/// The tag of an array.
pub const ARRAY_TAG: u8 = 246;

/// The tag of a string.
pub const STRING_TAG: u8 = 249;

/// The largest tag of a constructor.
pub const MAX_CTOR_TAG: usize = 244;

/// The number of bytes of an object's header.
pub const HEADER_SIZE: usize = 8;

/// The header of an object.
#[derive(Debug, Clone, Copy, PartialEq, Eq, Structural)]
pub struct LeanObject {
    pub m_rc: i32,
    pub m_cs_sz: u16,
    pub m_other: u8,
    pub m_tag: u8,
}

/// A string.
#[derive(Debug)]
pub struct LeanStringObject {
    pub m_header: LeanObject,
    /// The text that follows the header.
    pub m_data: String,
}

/// A variable is its name.
pub type LeanVar = LeanStringObject;

/// An array, without the items that follow its header.
#[derive(Debug, Clone, Copy, PartialEq, Eq, Structural)]
pub struct LeanArrayObject {
    pub m_header: LeanObject,
    pub m_size: usize,
    pub m_capacity: usize,
}

/// An object of a constructor, without its fields.
#[derive(Debug, Clone, Copy, PartialEq, Eq, Structural)]
pub struct LeanCtorObject {
    pub m_header: LeanObject,
}

/// An optional type: the word of a scalar, or an object that holds the type.
#[derive(Debug)]
pub enum LeanOption {
    Scalar(usize),
    Object { m_header: LeanObject, val: LeanType },
}

/// A reduction rule.
#[derive(Debug)]
pub struct LeanRule {
    pub m_header: LeanObject,
    pub lhs: LeanSpine,
    pub rhs: LeanSpine,
    pub attribution: LeanArrayObject,
    pub attribution_items: Vec<LeanStringObject>,
    pub is_redex: bool,
}

/// A let declaration.
#[derive(Debug)]
pub struct LeanLet {
    pub m_header: LeanObject,
    pub var: LeanVar,
    pub rules: LeanArrayObject,
    pub rules_items: Vec<LeanRule>,
}

/// A variable applied to arguments.
#[derive(Debug)]
pub struct LeanSpine {
    pub m_header: LeanObject,
    pub head: LeanStringObject,
    pub args: LeanArrayObject,
    pub args_items: Vec<LeanTerm>,
    pub premise_rules: LeanArrayObject,
    pub premise_rules_items: Vec<LeanStringObject>,
}

/// A term.
#[derive(Debug)]
pub struct LeanTerm {
    pub m_header: LeanObject,
    pub params: LeanArrayObject,
    pub params_items: Vec<LeanVar>,
    pub lets: LeanArrayObject,
    pub lets_items: Vec<LeanLet>,
    pub spine: LeanSpine,
    pub goal_rules: LeanArrayObject,
    pub goal_rules_items: Vec<LeanStringObject>,
}

/// A type.
#[derive(Debug)]
pub struct LeanType {
    pub m_header: LeanObject,
    pub codomain: LeanTerm,
    pub params: LeanArrayObject,
    pub params_items: Vec<LeanOption>,
    pub lets: LeanArrayObject,
    pub lets_items: Vec<LeanOption>,
}

/// The whole numbers in the outcome of a search.
#[derive(Debug)]
pub struct CanonicalResult {
    pub m_header: LeanObject,
    pub terms: LeanArrayObject,
    pub terms_items: Vec<LeanTerm>,
    pub attempted_resolutions: u32,
    pub successful_resolutions: u32,
    pub steps: u32,
    pub last_level_steps: u32,
}

/// What an action returns: a value, or an error. The second word is a scalar.
#[derive(Debug)]
pub struct LeanResult<T> {
    pub m_header: LeanObject,
    pub first: T,
    pub second: usize,
}

/// Whether the word stands for a scalar: it is odd.
pub fn lean_is_scalar(o: usize) -> (r: bool)
    ensures
        r == (o % 2 == 1),
{
    assert(o & 1 == o % 2) by (bit_vector);
    o & 1 == 1
}

/// The word that stands for the scalar `n`.
pub open spec fn boxed(n: usize) -> usize {
    (n << 1) | 1
}

/// The word that stands for the scalar `n`, whose highest bit is lost.
pub fn lean_box(n: usize) -> (r: usize)
    ensures
        r == boxed(n),
        r % 2 == 1,
        n <= usize::MAX / 2 ==> r == 2 * n + 1,
{
    proof {
        lemma_boxed(n);
    }
    (n << 1) | 1
}

/// The scalar for which the word stands.
pub fn lean_unbox(o: usize) -> (r: usize)
    ensures
        r == o / 2,
{
    assert(o >> 1 == o / 2) by (bit_vector);
    o >> 1
}

proof fn lemma_boxed(n: usize)
    ensures
        boxed(n) % 2 == 1,
        n <= usize::MAX / 2 ==> boxed(n) == 2 * n + 1,
{
    assert(((n << 1) | 1) % 2 == 1) by (bit_vector);
    if n <= usize::MAX / 2 {
        vstd::arithmetic::power2::lemma2_to64();
        vstd::bits::lemma_usize_shl_is_mul(n, 1);
        assert((n << 1) | 1 == (n << 1) + 1) by (bit_vector);
    }
}

/// A scalar is read back from the word that stands for it, unless it takes up all bits.
pub proof fn law_unbox_box(n: usize)
    requires
        n <= usize::MAX / 2,
    ensures
        boxed(n) % 2 == 1,
        boxed(n) / 2 == n,
{
    lemma_boxed(n);
}

/// The smallest multiple of `a` that is at least `v`.
pub open spec fn aligned(v: int, a: int) -> int {
    ((v + a - 1) / a) * a
}

/// The smallest multiple of `a` that is at least `v`, for an `a` other than 0.
pub proof fn law_aligned(v: int, a: int)
    requires
        a > 0,
    ensures
        aligned(v, a) % a == 0,
        v <= aligned(v, a) < v + a,
        forall|m: int| #![trigger m % a] m % a == 0 && m >= v ==> aligned(v, a) <= m,
{
    let w = v + a - 1;
    vstd::arithmetic::div_mod::lemma_fundamental_div_mod(w, a);
    vstd::arithmetic::div_mod::lemma_mod_bound(w, a);
    vstd::arithmetic::mul::lemma_mul_is_commutative(a, w / a);
    vstd::arithmetic::div_mod::lemma_mod_multiples_basic(w / a, a);
    assert forall|m: int| #![trigger m % a] m % a == 0 && m >= v implies aligned(v, a) <= m by {
        vstd::arithmetic::div_mod::lemma_fundamental_div_mod(m, a);
        let (p, q) = (m / a, w / a);
        assert(m == a * p);
        assert(p >= q) by (nonlinear_arith)
            requires
                a > 0,
                a * p >= v,
                q * a < v + a,
        ;
        assert(q * a <= a * p) by (nonlinear_arith)
            requires
                a > 0,
                p >= q,
        ;
    }
}

/// Aligns the offset `v` to `a`.
pub fn lean_align(v: usize, a: usize) -> (r: usize)
    requires
        a > 0,
        aligned(v as int, a as int) <= usize::MAX,
    ensures
        r == aligned(v as int, a as int),
        r as int % a as int == 0,
        v <= r < v + a,
{
    proof {
        law_aligned(v as int, a as int);
        let q = v as int / a as int;
        vstd::arithmetic::div_mod::lemma_fundamental_div_mod(v as int, a as int);
        vstd::arithmetic::div_mod::lemma_mod_bound(v as int, a as int);
        vstd::arithmetic::mul::lemma_mul_is_commutative(a as int, q);
        vstd::arithmetic::mul::lemma_mul_is_distributive_add_other_way(a as int, q, 1);
        vstd::arithmetic::div_mod::lemma_mod_multiples_basic(q, a as int);
        vstd::arithmetic::div_mod::lemma_mod_multiples_basic(q + 1, a as int);
        assert(q * a <= v);
        let (m, b) = (aligned(v as int, a as int) / a as int, a as int);
        vstd::arithmetic::div_mod::lemma_fundamental_div_mod(aligned(v as int, b), b);
        assert(b * m == if v as int % b == 0 { q * b } else { q * b + b }) by (nonlinear_arith)
            requires
                b > 0,
                v as int == q * b + v as int % b,
                0 <= v as int % b < b,
                v <= b * m < v + b,
        ;
    }
    let base: usize = (v / a) * a;
    if v % a != 0 {
        base + a
    } else {
        base
    }
}

/// How the object of a constructor is laid out.
#[derive(Debug, Clone, Copy, PartialEq, Eq, Structural)]
pub struct CtorLayout {
    pub m_header: LeanObject,
    /// The number of bytes that it takes up.
    pub size: usize,
    /// The number of bytes to allocate.
    pub aligned: usize,
}

/// The header of an object of a constructor.
pub open spec fn ctor_header(tag: usize, num_objs: usize) -> LeanObject {
    LeanObject { m_rc: 1, m_cs_sz: 0, m_other: num_objs as u8, m_tag: tag as u8 }
}

/// The header of an array.
pub open spec fn array_header() -> LeanObject {
    LeanObject { m_rc: 1, m_cs_sz: 0, m_other: 0, m_tag: ARRAY_TAG }
}

/// Lays out an object with `num_objs` fields of `word` bytes each and `scalar_sz` more bytes. There
/// is no such object where one of the numbers is too large.
pub fn lean_alloc_ctor(tag: usize, num_objs: usize, scalar_sz: usize, word: usize) -> (r: Result<
    CtorLayout,
    Fault,
>)
    requires
        word <= 8,
    ensures
        r is Ok <==> tag <= MAX_CTOR_TAG && num_objs < 256 && scalar_sz < 1024,
        r matches Err(f) ==> f == Fault::Malformed,
        r matches Ok(l) ==> {
            &&& l.m_header == ctor_header(tag, num_objs)
            &&& l.size == HEADER_SIZE + word * num_objs + scalar_sz
            &&& l.aligned % 8 == 0
            &&& l.size <= l.aligned < l.size + 8
        },
{
    if tag > MAX_CTOR_TAG || num_objs >= 256 || scalar_sz >= 1024 {
        return Err(Fault::Malformed);
    }
    assert(0 <= word * num_objs <= 8 * 255) by (nonlinear_arith)
        requires
            0 <= word <= 8,
            0 <= num_objs < 256,
    ;
    let size: usize = HEADER_SIZE + word * num_objs + scalar_sz;
    let m_header = LeanObject {
        m_rc: 1,
        m_cs_sz: 0,
        m_other: num_objs as u8,
        m_tag: tag as u8,
    };
    Ok(CtorLayout { m_header, size, aligned: lean_align(size, 8) })
}

/// The number of bytes of an array of `len` items of `word` bytes each, with a header and two sizes
/// in front of them, unless the number is too large.
pub fn array_size(len: usize, word: usize) -> (r: Option<usize>)
    ensures
        r == if HEADER_SIZE + 2 * word + word * len <= usize::MAX {
            Some((HEADER_SIZE + 2 * word + word * len) as usize)
        } else {
            None
        },
{
    assert(0 <= word * len) by (nonlinear_arith);
    let fields: usize = match word.checked_mul(len) {
        None => {
            return None;
        },
        Some(n) => n,
    };
    let sizes: usize = match word.checked_mul(2) {
        None => {
            return None;
        },
        Some(n) => n,
    };
    match fields.checked_add(sizes) {
        None => None,
        Some(n) => n.checked_add(HEADER_SIZE),
    }
}

/// The outcome of a search that found the given terms.
pub fn to_canonical_result(
    terms: LeanArrayObject,
    terms_items: Vec<LeanTerm>,
    result: DFSResult,
    last_level_steps: u32,
) -> (r: CanonicalResult)
    requires
        result.steps + result.unknown_count <= u32::MAX,
    ensures
        r == (CanonicalResult {
            m_header: ctor_header(0, 1),
            terms,
            terms_items,
            attempted_resolutions: result.attempts,
            successful_resolutions: (result.steps + result.unknown_count) as u32,
            steps: result.steps,
            last_level_steps,
        }),
{
    CanonicalResult {
        m_header: LeanObject { m_rc: 1, m_cs_sz: 0, m_other: 1, m_tag: 0 },
        terms,
        terms_items,
        attempted_resolutions: result.attempts,
        successful_resolutions: result.steps + result.unknown_count,
        steps: result.steps,
        last_level_steps,
    }
}

/// The result of an action that gave `a`.
pub fn lean_io_result_mk_ok<T>(a: T) -> (r: LeanResult<T>)
    ensures
        r == (LeanResult { m_header: ctor_header(0, 2), first: a, second: boxed(0) }),
{
    LeanResult {
        m_header: LeanObject { m_rc: 1, m_cs_sz: 0, m_other: 2, m_tag: 0 },
        first: a,
        second: lean_box(0),
    }
}

/// The result of an action that failed with `e`.
pub fn lean_io_result_mk_error<T>(e: T) -> (r: LeanResult<T>)
    ensures
        r == (LeanResult { m_header: ctor_header(1, 2), first: e, second: boxed(0) }),
{
    LeanResult {
        m_header: LeanObject { m_rc: 1, m_cs_sz: 0, m_other: 2, m_tag: 1 },
        first: e,
        second: lean_box(0),
    }
}

} // verus!
