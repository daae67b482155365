//! Identifiers of reactors, reactions and triggers.
//!
//! A [`GlobalId`] packs a reactor id (high half) and a local id (low half)
//! into one `u32`, so that equality, hashing and ordering are single integer
//! operations. The packing is lossless and preserves the lexicographic order
//! of `(container, local)`.
use index_vec::Idx;
use vstd::prelude::*;
use vstd::string::*;

verus! {

/// Largest value of either half of a global id.
pub const MAX_HALF: u16 = 65535;

/// ID of a reaction (or component) local to its containing reactor.
#[derive(Debug, Copy, Clone, PartialEq, Eq, Structural, PartialOrd, Ord, Hash)]
pub struct LocalReactionId(pub u16);

/// The unique identifier of a reactor instance, assigned in preorder.
#[derive(Debug, Copy, Clone, PartialEq, Eq, Structural, PartialOrd, Ord, Hash)]
pub struct ReactorId(pub u16);

impl LocalReactionId {
    pub fn new(u: u16) -> (r: Self)
        ensures
            r.0 == u,
    {
        LocalReactionId(u)
    }

    pub fn raw(self) -> (r: u16)
        ensures
            r == self.0,
    {
        self.0
    }

    /// The id `u` places further; `None` where it leaves the 16-bit range.
    pub fn plus(self, u: usize) -> (r: Option<Self>)
        ensures
            self.0 + u <= MAX_HALF ==> r == Some(LocalReactionId((self.0 + u) as u16)),
            self.0 + u > MAX_HALF ==> r is None,
    {
        if u > (MAX_HALF - self.0) as usize {
            None
        } else {
            Some(LocalReactionId(self.0 + u as u16))
        }
    }
}

impl ReactorId {
    pub fn new(u: u16) -> (r: Self)
        ensures
            r.0 == u,
    {
        ReactorId(u)
    }

    pub fn raw(self) -> (r: u16)
        ensures
            r == self.0,
    {
        self.0
    }

    pub fn index(self) -> (r: usize)
        ensures
            r == self.0,
    {
        self.0 as usize
    }
}

impl Idx for ReactorId {
    /// Indexes past the 16-bit range wrap around; the assembly never
    /// allocates such a reactor id (see `GlobalAssembler`).
    fn from_usize(idx: usize) -> Self {
        ReactorId((idx % 65536) as u16)
    }

    fn index(self) -> usize {
        self.0 as usize
    }
}

/// Identifies a component of a reactor by the id of its container and a
/// local id, packed as `container * 2^16 + local`.
#[derive(Debug, Copy, Clone, PartialEq, Eq, Structural, PartialOrd, Ord, Hash)]
pub struct GlobalId {
    packed: u32,
}

pub open spec fn pack(container: u16, local: u16) -> u32 {
    (container as int * 65536 + local as int) as u32
}

impl GlobalId {
    /// The id of `(container, local)`.
    pub closed spec fn spec_new(container: u16, local: u16) -> GlobalId {
        GlobalId { packed: pack(container, local) }
    }

    pub closed spec fn packed_value(self) -> u32 {
        self.packed
    }

    pub closed spec fn spec_container(self) -> u16 {
        (self.packed / 65536) as u16
    }

    pub closed spec fn spec_local(self) -> u16 {
        (self.packed % 65536) as u16
    }

    pub fn new(container: ReactorId, local: LocalReactionId) -> (r: Self)
        ensures
            r == GlobalId::spec_new(container.0, local.0),
            r.packed_value() == pack(container.0, local.0),
            r.spec_container() == container.0,
            r.spec_local() == local.0,
    {
        proof {
            lemma_pack_unpack(container.0, local.0);
        }
        GlobalId { packed: container.0 as u32 * 65536 + local.0 as u32 }
    }

    pub fn container(&self) -> (r: ReactorId)
        ensures
            r.0 == self.spec_container(),
    {
        ReactorId((self.packed / 65536) as u16)
    }

    pub fn local(&self) -> (r: LocalReactionId)
        ensures
            r.0 == self.spec_local(),
    {
        LocalReactionId((self.packed % 65536) as u16)
    }

    /// Parses the text form `container/local`, each half a decimal `u16`
    /// with an optional leading `+`.
    pub fn parse(s: &str) -> (r: Result<GlobalId, IdParseError>)
        ensures
            r == spec_parse_global_id(s@),
    {
        let n = s.unicode_len();
        let mut i: usize = 0;
        while i < n
            invariant
                n == s@.len(),
                i <= n,
                forall|j: int| 0 <= j < i ==> s@[j] != '/',
            ensures
                i < n ==> s@[i as int] == '/',
            decreases n - i,
        {
            if s.get_char(i) == '/' {
                break;
            }
            i = i + 1;
        }
        if i == n {
            proof {
                assert(first_slash(s@) == -1) by {
                    lemma_first_slash(s@, n as int);
                }
            }
            return Err(IdParseError::MissingSlash);
        }
        proof {
            lemma_first_slash(s@, i as int);
        }
        match parse_u16(s, 0, i) {
            None => Err(IdParseError::InvalidReactorId),
            Some(c) => match parse_u16(s, i + 1, n) {
                None => Err(IdParseError::InvalidLocalId),
                Some(l) => Ok(GlobalId::new(ReactorId(c), LocalReactionId(l))),
            },
        }
    }

    /// The text form `container/local`, in decimal.
    pub fn to_string(&self) -> (r: String)
        ensures
            r@ == spec_id_text(self.spec_container(), self.spec_local()),
    {
        format_id(self.container().0, self.local().0)
    }
}

impl std::str::FromStr for GlobalId {
    type Err = IdParseError;

    fn from_str(s: &str) -> Result<GlobalId, IdParseError> {
        GlobalId::parse(s)
    }
}

/// Why a text does not denote a global id.
#[derive(Debug, Copy, Clone, PartialEq, Eq, Structural)]
pub enum IdParseError {
    /// The text holds no `/`.
    MissingSlash,
    /// The part before the first `/` is not a decimal `u16`.
    InvalidReactorId,
    /// The part after the first `/` is not a decimal `u16`.
    InvalidLocalId,
}

pub open spec fn is_digit(c: char) -> bool {
    '0' <= c && c <= '9'
}

pub open spec fn digit_value(c: char) -> nat {
    (c as u32 - '0' as u32) as nat
}

pub open spec fn digit_char(d: nat) -> char
    recommends
        d < 10,
{
    ('0' as u32 + d) as char
}

/// Value of a sequence of decimal digits.
pub open spec fn decimal_value(s: Seq<char>) -> nat
    decreases s.len(),
{
    if s.len() == 0 {
        0
    } else {
        10 * decimal_value(s.drop_last()) + digit_value(s.last())
    }
}

pub open spec fn all_digits(s: Seq<char>) -> bool {
    s.len() > 0 && forall|j: int| 0 <= j < s.len() ==> is_digit(#[trigger] s[j])
}

/// A decimal `u16`: an optional `+`, then at least one digit.
pub open spec fn spec_parse_u16(s: Seq<char>) -> Option<u16> {
    let body = if s.len() > 0 && s[0] == '+' {
        s.skip(1)
    } else {
        s
    };
    if all_digits(body) && decimal_value(body) <= 65535 {
        Some(decimal_value(body) as u16)
    } else {
        None
    }
}

/// Index of the first `/`, or -1.
pub open spec fn first_slash(s: Seq<char>) -> int
    decreases s.len(),
{
    if s.len() == 0 {
        -1
    } else if s[0] == '/' {
        0
    } else {
        let k = first_slash(s.skip(1));
        if k == -1 {
            -1
        } else {
            k + 1
        }
    }
}

pub open spec fn spec_parse_global_id(s: Seq<char>) -> Result<GlobalId, IdParseError> {
    let k = first_slash(s);
    if k == -1 {
        Err(IdParseError::MissingSlash)
    } else {
        match spec_parse_u16(s.subrange(0, k)) {
            None => Err(IdParseError::InvalidReactorId),
            Some(c) => match spec_parse_u16(s.subrange(k + 1, s.len() as int)) {
                None => Err(IdParseError::InvalidLocalId),
                Some(l) => Ok(GlobalId::spec_new(c, l)),
            },
        }
    }
}

/// Decimal digits of `n`, without leading zeros.
pub open spec fn decimal_chars(n: nat) -> Seq<char>
    decreases n,
{
    if n < 10 {
        seq![digit_char(n)]
    } else {
        decimal_chars(n / 10).push(digit_char(n % 10))
    }
}

pub open spec fn spec_id_text(container: u16, local: u16) -> Seq<char> {
    decimal_chars(container as nat) + seq!['/'] + decimal_chars(local as nat)
}

/// Relies on `String`'s `FromIterator<char>`: the characters, in order.
#[verifier::external_body]
pub(crate) fn chars_to_string(v: &Vec<char>) -> (r: String)
    ensures
        r@ == v@,
{
    v.iter().collect()
}

/// Appends the decimal digits of `n`.
pub(crate) fn push_decimal(out: &mut Vec<char>, n: u64)
    ensures
        final(out)@ == old(out)@ + decimal_chars(n as nat),
    decreases n,
{
    if n >= 10 {
        push_decimal(out, n / 10);
    }
    let d = (n % 10) as u8;
    let c = (48u8 + d) as char;
    proof {
        assert(c == digit_char((n % 10) as nat));
    }
    out.push(c);
    proof {
        if n >= 10 {
            assert(decimal_chars(n as nat) == decimal_chars((n / 10) as nat).push(digit_char((n % 10) as nat)));
        }
        assert(out@ =~= old(out)@ + decimal_chars(n as nat));
    }
}

/// Appends the characters of `s`.
pub(crate) fn push_str(out: &mut Vec<char>, s: &str)
    ensures
        final(out)@ == old(out)@ + s@,
{
    let n = s.unicode_len();
    let mut i: usize = 0;
    while i < n
        invariant
            n == s@.len(),
            i <= n,
            out@ == old(out)@ + s@.take(i as int),
        decreases n - i,
    {
        out.push(s.get_char(i));
        i = i + 1;
        proof {
            assert(out@ =~= old(out)@ + s@.take(i as int));
        }
    }
    assert(s@.take(n as int) =~= s@);
}

/// The text `container/local`, in decimal.
fn format_id(container: u16, local: u16) -> (r: String)
    ensures
        r@ == spec_id_text(container, local),
{
    let mut v: Vec<char> = Vec::new();
    push_decimal(&mut v, container as u64);
    v.push('/');
    push_decimal(&mut v, local as u64);
    proof {
        assert(v@ =~= spec_id_text(container, local));
    }
    chars_to_string(&v)
}

proof fn lemma_pack_unpack(c: u16, l: u16)
    ensures
        (c as int * 65536 + l as int) <= u32::MAX,
        pack(c, l) / 65536 == c,
        pack(c, l) % 65536 == l,
{
    assert(c as int * 65536 <= 65535 * 65536) by (nonlinear_arith)
        requires
            c <= 65535,
    ;
    let p = c as int * 65536 + l as int;
    vstd::arithmetic::div_mod::lemma_fundamental_div_mod_converse(p, 65536, c as int, l as int);
}

proof fn lemma_first_slash(s: Seq<char>, i: int)
    requires
        0 <= i <= s.len(),
        forall|j: int| 0 <= j < i ==> s[j] != '/',
        i < s.len() ==> s[i] == '/',
    ensures
        i == s.len() ==> first_slash(s) == -1,
        i < s.len() ==> first_slash(s) == i,
    decreases s.len(),
{
    if s.len() > 0 && i > 0 {
        let t = s.skip(1);
        assert forall|j: int| 0 <= j < i - 1 implies t[j] != '/' by {
            assert(t[j] == s[j + 1]);
        }
        lemma_first_slash(t, i - 1);
    }
}

proof fn lemma_decimal_value_push(s: Seq<char>, c: char)
    ensures
        decimal_value(s.push(c)) == 10 * decimal_value(s) + digit_value(c),
{
    assert(s.push(c).drop_last() =~= s);
}

/// Parses `s[lo..hi]` as a decimal `u16`.
fn parse_u16(s: &str, lo: usize, hi: usize) -> (r: Option<u16>)
    requires
        lo <= hi <= s@.len(),
    ensures
        r == spec_parse_u16(s@.subrange(lo as int, hi as int)),
{
    let ghost t = s@.subrange(lo as int, hi as int);
    let mut start = lo;
    if lo < hi && s.get_char(lo) == '+' {
        start = lo + 1;
    }
    let ghost body = s@.subrange(start as int, hi as int);
    proof {
        if lo < hi && t[0] == '+' {
            assert(body =~= t.skip(1));
        } else {
            assert(body =~= t);
        }
    }
    if start == hi {
        assert(body.len() == 0);
        assert(!all_digits(body));
        assert(t.len() > 0 && t[0] == '+' ==> body == t.skip(1));
        assert(!(t.len() > 0 && t[0] == '+') ==> body == t);
        return None;
    }
    let mut acc: u32 = 0;
    let mut over = false;
    let mut i = start;
    while i < hi
        invariant
            lo <= start <= i <= hi <= s@.len(),
            body == s@.subrange(start as int, hi as int),
            t == s@.subrange(lo as int, hi as int),
            (t.len() > 0 && t[0] == '+') ==> body == t.skip(1),
            !(t.len() > 0 && t[0] == '+') ==> body == t,
            forall|j: int| start <= j < i ==> is_digit(#[trigger] s@[j]),
            !over ==> acc == decimal_value(s@.subrange(start as int, i as int)),
            !over ==> acc <= 65535,
            over <==> decimal_value(s@.subrange(start as int, i as int)) > 65535,
        decreases hi - i,
    {
        let c = s.get_char(i);
        if !('0' <= c && c <= '9') {
            proof {
                assert(!is_digit(body[i - start]));
            }
            return None;
        }
        let ghost prev = s@.subrange(start as int, i as int);
        proof {
            assert(s@.subrange(start as int, i + 1) =~= prev.push(c));
            lemma_decimal_value_push(prev, c);
        }
        if !over {
            let d = (c as u32) - ('0' as u32);
            acc = acc * 10 + d;
            if acc > 65535 {
                over = true;
            }
        }
        i = i + 1;
    }
    proof {
        assert(s@.subrange(start as int, hi as int) =~= body);
        assert forall|j: int| 0 <= j < body.len() implies is_digit(#[trigger] body[j]) by {
            assert(body[j] == s@[start + j]);
        }
    }
    if over {
        None
    } else {
        Some(acc as u16)
    }
}

proof fn lemma_decimal_chars(n: nat)
    ensures
        all_digits(decimal_chars(n)),
        decimal_value(decimal_chars(n)) == n,
        decimal_chars(n)[0] != '+',
        forall|j: int| 0 <= j < decimal_chars(n).len() ==> #[trigger] decimal_chars(n)[j] != '/',
    decreases n,
{
    let d = digit_char(n % 10);
    assert(digit_value(d) == n % 10) by {
        assert(('0' as u32 + n % 10) as char as u32 == '0' as u32 + n % 10);
    }
    if n < 10 {
        assert(decimal_chars(n) == seq![d]);
        assert(seq![d].drop_last() =~= Seq::<char>::empty());
        assert(n % 10 == n);
        assert(decimal_value(seq![d]) == 10 * decimal_value(Seq::<char>::empty()) + digit_value(d));
    } else {
        vstd::arithmetic::div_mod::lemma_fundamental_div_mod(n as int, 10);
        lemma_decimal_chars(n / 10);
        let pre = decimal_chars(n / 10);
        assert(decimal_chars(n) == pre.push(d));
        assert(pre.push(d).drop_last() =~= pre);
        assert(decimal_chars(n)[0] == pre[0]);
        assert(decimal_value(pre.push(d)) == 10 * decimal_value(pre) + digit_value(d));
    }
}

proof fn lemma_parse_u16_decimal(n: u16)
    ensures
        spec_parse_u16(decimal_chars(n as nat)) == Some(n),
{
    lemma_decimal_chars(n as nat);
}

/// The text form of a global id parses back to the same id.
pub proof fn lemma_text_round_trip(container: u16, local: u16)
    ensures
        spec_parse_global_id(spec_id_text(container, local)) == Ok::<GlobalId, IdParseError>(
            GlobalId::spec_new(container, local),
        ),
{
    let a = decimal_chars(container as nat);
    let b = decimal_chars(local as nat);
    let t = spec_id_text(container, local);
    lemma_decimal_chars(container as nat);
    lemma_decimal_chars(local as nat);
    assert forall|j: int| 0 <= j < a.len() implies t[j] != '/' by {
        assert(t[j] == a[j]);
    }
    assert(t[a.len() as int] == '/');
    lemma_first_slash(t, a.len() as int);
    assert(t.subrange(0, a.len() as int) =~= a);
    assert(t.subrange((a.len() + 1) as int, t.len() as int) =~= b);
    lemma_parse_u16_decimal(container);
    lemma_parse_u16_decimal(local);
}

/// Global identifier of a reaction.
#[derive(Debug, Copy, Clone, PartialEq, Eq, Structural, PartialOrd, Ord, Hash)]
pub struct GlobalReactionId(pub GlobalId);

impl GlobalReactionId {
    pub fn new(container: ReactorId, local: LocalReactionId) -> (r: Self)
        ensures
            r.0 == GlobalId::spec_new(container.0, local.0),
            r.0.spec_container() == container.0,
            r.0.spec_local() == local.0,
    {
        GlobalReactionId(GlobalId::new(container, local))
    }
}

/// Handle of a trigger (port, action, timer or bank channel), allocated from
/// one program-wide counter. Values below `FIRST_REGULAR_RAW` are
/// reserved for built-in triggers (`STARTUP_RAW`).
/// Ids from `FIRST_REGULAR_RAW` on are handed to components.
#[derive(Debug, Copy, Clone, PartialEq, Eq, Structural, PartialOrd, Ord, Hash)]
pub struct TriggerId(pub u32);

/// Raw id of the trigger of the reactions that run at startup.
pub const STARTUP_RAW: u32 = 0;

/// Raw id of the first trigger handed to a component.
pub const FIRST_REGULAR_RAW: u32 = 1;

impl TriggerId {
    /// The trigger of the reactions that run at startup.
    pub fn startup() -> (r: TriggerId)
        ensures
            r.0 == STARTUP_RAW,
    {
        TriggerId(STARTUP_RAW)
    }

    pub fn index(self) -> (r: usize)
        ensures
            r == self.0,
    {
        self.0 as usize
    }

    /// The following id, `None` on overflow.
    pub fn next(self) -> (r: Option<TriggerId>)
        ensures
            self.0 < u32::MAX ==> r == Some(TriggerId((self.0 + 1) as u32)),
            self.0 == u32::MAX ==> r is None,
    {
        if self.0 == u32::MAX {
            None
        } else {
            Some(TriggerId(self.0 + 1))
        }
    }
}

/// Packing a `(container, local)` pair into a global id and reading both
/// halves back yields the original pair.
pub proof fn lemma_global_id_round_trip(container: u16, local: u16)
    ensures
        GlobalId::spec_new(container, local).spec_container() == container,
        GlobalId::spec_new(container, local).spec_local() == local,
{
    lemma_pack_unpack(container, local);
}

/// The packing orders global ids as the lexicographic order of their
/// `(container, local)` pairs.
pub proof fn lemma_global_id_order(c1: u16, l1: u16, c2: u16, l2: u16)
    ensures
        (pack(c1, l1) < pack(c2, l2)) <==> (c1 < c2 || (c1 == c2 && l1 < l2)),
        (pack(c1, l1) == pack(c2, l2)) <==> (c1 == c2 && l1 == l2),
{
    lemma_pack_unpack(c1, l1);
    lemma_pack_unpack(c2, l2);
    assert(c1 < c2 ==> c1 as int * 65536 + 65536 <= c2 as int * 65536) by (nonlinear_arith);
    assert(c2 < c1 ==> c2 as int * 65536 + 65536 <= c1 as int * 65536) by (nonlinear_arith);
}

} // verus!
