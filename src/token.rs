use vstd::prelude::*;

verus! {

/// A binary operator; `precedence` gives its binding power.
#[derive(Debug, Clone, Copy, PartialEq, Eq, Structural)]
pub enum Operator {
    Add,
    Sub,
    Mod,
    Mul,
    Div,
    Exp,
}

/// Binding power: `Add == Sub < Mod < Mul == Div < Exp`.
pub open spec fn precedence(op: Operator) -> nat {
    match op {
        Operator::Add | Operator::Sub => 0,
        Operator::Mod => 1,
        Operator::Mul | Operator::Div => 2,
        Operator::Exp => 3,
    }
}

impl Operator {
    pub fn precedence(&self) -> (r: u8)
        ensures
            r as nat == precedence(*self),
    {
        match self {
            Operator::Add | Operator::Sub => 0,
            Operator::Mod => 1,
            Operator::Mul | Operator::Div => 2,
            Operator::Exp => 3,
        }
    }

    /// The operator's symbol.
    pub fn symbol(&self) -> (r: char)
        ensures
            op_of(r) == Some(*self),
    {
        match self {
            Operator::Add => '+',
            Operator::Sub => '-',
            Operator::Mod => '%',
            Operator::Mul => '*',
            Operator::Div => '/',
            Operator::Exp => '^',
        }
    }
}

/// The operator a character stands for, if any.
pub open spec fn op_of(c: char) -> Option<Operator> {
    if c == '+' {
        Some(Operator::Add)
    } else if c == '-' {
        Some(Operator::Sub)
    } else if c == '%' {
        Some(Operator::Mod)
    } else if c == '*' {
        Some(Operator::Mul)
    } else if c == '/' {
        Some(Operator::Div)
    } else if c == '^' {
        Some(Operator::Exp)
    } else {
        None
    }
}

pub(crate) fn operator_of(c: char) -> (r: Option<Operator>)
    ensures
        r == op_of(c),
{
    if c == '+' {
        Some(Operator::Add)
    } else if c == '-' {
        Some(Operator::Sub)
    } else if c == '%' {
        Some(Operator::Mod)
    } else if c == '*' {
        Some(Operator::Mul)
    } else if c == '/' {
        Some(Operator::Div)
    } else if c == '^' {
        Some(Operator::Exp)
    } else {
        None
    }
}

/// One digit read into a numeric literal. At `place` 0 it shifts the value
/// one decimal position left and is added (`v * 10 + d`); at `place` k > 0
/// it is added as `d * 10^-k`.
#[derive(Debug, Clone, Copy, PartialEq, Eq, Structural)]
pub struct Digit {
    pub value: u8,
    pub place: usize,
}

/// A numeric literal as the digits that were read into it, in order. When
/// `negative` holds, the value of the first `lead` digits is negated, and the
/// digits after them extend the negated value.
#[derive(Debug, PartialEq)]
pub struct Literal {
    pub negative: bool,
    pub lead: usize,
    pub digits: Vec<Digit>,
}

/// The mathematical form of a literal.
pub struct Num {
    pub negative: bool,
    pub lead: nat,
    pub digits: Seq<Digit>,
}

impl View for Literal {
    type V = Num;

    open spec fn view(&self) -> Num {
        Num { negative: self.negative, lead: self.lead as nat, digits: self.digits@ }
    }
}

pub open spec fn pow10(k: nat) -> int
    decreases k,
{
    if k == 0 {
        1
    } else {
        10 * pow10((k - 1) as nat)
    }
}

/// The largest place among `ds`, 0 for none.
pub open spec fn max_place(ds: Seq<Digit>) -> nat
    decreases ds.len(),
{
    if ds.len() == 0 {
        0
    } else {
        let m = max_place(ds.drop_last());
        if ds.last().place as nat > m {
            ds.last().place as nat
        } else {
            m
        }
    }
}

/// A value `x / 10^s` after reading digit `d`, again as a numerator over `10^s`.
pub open spec fn scaled_digit(x: int, d: Digit, s: nat) -> int {
    if d.place == 0 {
        x * 10 + d.value * pow10(s)
    } else {
        x + d.value * pow10((s - d.place) as nat)
    }
}

/// Whether the leading minus is applied after `i` digits are read.
pub open spec fn negated_at(n: Num, i: nat) -> bool {
    n.negative && i == n.lead
}

/// The value of the first `i` digits of `n` times `10^s`.
pub open spec fn scaled_prefix(n: Num, s: nat, i: nat) -> int
    decreases i,
{
    if i == 0 {
        0
    } else {
        let x = scaled_prefix(n, s, (i - 1) as nat);
        let x = if negated_at(n, (i - 1) as nat) {
            -x
        } else {
            x
        };
        scaled_digit(x, n.digits[i - 1], s)
    }
}

/// The value of `n` times `10^s`, for `s` at least every place of `n`.
pub open spec fn scaled(n: Num, s: nat) -> int {
    let x = scaled_prefix(n, s, n.digits.len());
    if n.negative && n.lead >= n.digits.len() {
        -x
    } else {
        x
    }
}

/// The literal denotes a value below zero.
pub open spec fn below_zero(n: Num) -> bool {
    scaled(n, max_place(n.digits)) < 0
}

/// Every place of the literal's digits fits below `usize::MAX`.
pub open spec fn places_fit(n: Num) -> bool {
    forall|j: int| 0 <= j < n.digits.len() ==> (#[trigger] n.digits[j]).place < usize::MAX
}

/// Every literal among `ts` has places that fit.
pub open spec fn tokens_fit(ts: Seq<TokenV>) -> bool {
    forall|k: int| 0 <= k < ts.len() && (#[trigger] ts[k]) is Number ==> places_fit(ts[k]->Number_0)
}

pub proof fn lemma_fit_push(ts: Seq<TokenV>, t: TokenV)
    requires
        tokens_fit(ts),
        t is Number ==> places_fit(t->Number_0),
    ensures
        tokens_fit(ts.push(t)),
{
    assert forall|k: int| 0 <= k < ts.push(t).len() && (#[trigger] ts.push(t)[k]) is Number implies places_fit(
        ts.push(t)[k]->Number_0,
    ) by {
        if k < ts.len() {
            assert(ts.push(t)[k] == ts[k]);
        }
    }
}

pub proof fn lemma_fit_digits(n: Num, d: Digit)
    requires
        places_fit(n),
        d.place < usize::MAX,
    ensures
        places_fit(Num { negative: n.negative, lead: n.lead, digits: n.digits.push(d) }),
{
    let m = Num { negative: n.negative, lead: n.lead, digits: n.digits.push(d) };
    assert forall|j: int| 0 <= j < m.digits.len() implies (#[trigger] m.digits[j]).place < usize::MAX by {
        if j < n.digits.len() {
            assert(m.digits[j] == n.digits[j]);
        }
    }
}

pub proof fn lemma_fit_update(ts: Seq<TokenV>, k: int, t: TokenV)
    requires
        tokens_fit(ts),
        0 <= k < ts.len(),
        t is Number ==> places_fit(t->Number_0),
    ensures
        tokens_fit(ts.update(k, t)),
{
    assert forall|i: int| 0 <= i < ts.update(k, t).len() && (#[trigger] ts.update(k, t)[i]) is Number implies places_fit(
        ts.update(k, t)[i]->Number_0,
    ) by {
        if i != k {
            assert(ts.update(k, t)[i] == ts[i]);
        }
    }
}

/// `sum c[j] * 10^j`.
pub open spec fn poly(c: Seq<i128>) -> int
    decreases c.len(),
{
    if c.len() == 0 {
        0
    } else {
        c[0] + 10 * poly(c.skip(1))
    }
}

proof fn lemma_poly_shift(c: Seq<i128>)
    ensures
        poly(seq![0i128] + c) == 10 * poly(c),
{
    assert((seq![0i128] + c).skip(1) =~= c);
}

proof fn lemma_poly_set(c: Seq<i128>, i: int, v: i128)
    requires
        0 <= i < c.len(),
    ensures
        poly(c.update(i, v)) == poly(c) + (v - c[i]) * pow10(i as nat),
    decreases i,
{
    if i == 0 {
        assert(c.update(0, v).skip(1) =~= c.skip(1));
    } else {
        assert(c.update(i, v).skip(1) =~= c.skip(1).update(i - 1, v));
        lemma_poly_set(c.skip(1), i - 1, v);
        let p = pow10((i - 1) as nat);
        let a = poly(c.skip(1));
        let b = v - c[i];
        assert(10 * (a + b * p) == 10 * a + b * (10 * p)) by (nonlinear_arith);
    }
}

proof fn lemma_poly_zeros(c: Seq<i128>)
    requires
        forall|j: int| 0 <= j < c.len() ==> c[j] == 0,
    ensures
        poly(c) == 0,
    decreases c.len(),
{
    if c.len() > 0 {
        lemma_poly_zeros(c.skip(1));
    }
}

proof fn lemma_pow10_pos(k: nat)
    ensures
        pow10(k) >= 1,
    decreases k,
{
    if k > 0 {
        lemma_pow10_pos((k - 1) as nat);
    }
}

/// The largest place of `ds`.
fn largest_place(ds: &Vec<Digit>) -> (m: usize)
    ensures
        m as nat == max_place(ds@),
{
    let mut m: usize = 0;
    let mut i: usize = 0;
    proof {
        assert(ds@.take(0) =~= Seq::<Digit>::empty());
    }
    while i < ds.len()
        invariant
            i <= ds.len(),
            m as nat == max_place(ds@.take(i as int)),
        decreases ds.len() - i,
    {
        proof {
            assert(ds@.take(i + 1).drop_last() =~= ds@.take(i as int));
        }
        if ds[i].place > m {
            m = ds[i].place;
        }
        i += 1;
    }
    proof {
        assert(ds@.take(i as int) =~= ds@);
    }
    m
}

/// The sign of `poly(c)`: `-1`, `0` or `1`, by carrying from the lowest
/// position up.
fn poly_sign(c: &Vec<i128>, bound: i128) -> (r: i8)
    requires
        0 <= bound <= 0x1_0000_0000_0000_0000_0000_0000,
        forall|j: int| 0 <= j < c.len() ==> -bound <= #[trigger] c[j] <= bound,
    ensures
        r == -1 <==> poly(c@) < 0,
        r == 0 <==> poly(c@) == 0,
        r == 1 <==> poly(c@) > 0,
{
    let mut carry: i128 = 0;
    let mut nonzero: bool = false;
    let ghost mut low: int = 0;
    let mut j: usize = 0;
    proof {
        assert(c@.skip(0) =~= c@);
    }
    while j < c.len()
        invariant
            0 <= bound <= 0x1_0000_0000_0000_0000_0000_0000,
            forall|k: int| 0 <= k < c.len() ==> -bound <= #[trigger] c[k] <= bound,
            j <= c.len(),
            -bound - 1 <= carry <= bound + 1,
            0 <= low < pow10(j as nat),
            nonzero <==> low > 0,
            poly(c@) == low + pow10(j as nat) * (carry + poly(c@.skip(j as int))),
        decreases c.len() - j,
    {
        let t: i128 = c[j] + carry;
        let q: i128 = match t.checked_div_euclid(10) {
            Some(q) => q,
            None => 0,
        };
        proof {
            assert(q == t / 10);
            let rest = c@.skip(j as int);
            assert(rest.skip(1) =~= c@.skip(j + 1));
            assert(poly(rest) == c@[j as int] + 10 * poly(c@.skip(j + 1)));
            let r = t - 10 * q;
            assert(0 <= r < 10);
            let p = pow10(j as nat);
            lemma_pow10_pos(j as nat);
            assert(pow10((j + 1) as nat) == 10 * p);
            let tail = poly(c@.skip(j + 1));
            assert(p * (carry + poly(rest)) == p * r + (10 * p) * (q + tail)) by (nonlinear_arith)
                requires
                    carry + poly(rest) == r + 10 * (q + tail),
            ;
            assert(p * r <= p * 9) by (nonlinear_arith)
                requires
                    r <= 9,
                    p >= 1,
            ;
            assert(low + p * r < 10 * p);
            assert(p * r >= 0) by (nonlinear_arith)
                requires
                    p >= 1,
                    r >= 0,
            ;
            assert(r > 0 ==> p * r > 0) by (nonlinear_arith)
                requires
                    p >= 1,
            ;
            assert(r == 0 ==> p * r == 0) by (nonlinear_arith);
            low = low + p * r;
        }
        nonzero = nonzero || t - 10 * q != 0;
        carry = q;
        j += 1;
    }
    proof {
        assert(c@.skip(j as int) =~= Seq::<i128>::empty());
        let p = pow10(j as nat);
        if carry < 0 {
            assert(p * carry <= -p) by (nonlinear_arith)
                requires
                    carry <= -1,
                    p >= 1,
            ;
        } else if carry == 0 {
            assert(p * carry == 0) by (nonlinear_arith)
                requires
                    carry == 0,
            ;
        } else {
            assert(p * carry >= p) by (nonlinear_arith)
                requires
                    carry >= 1,
                    p >= 1,
            ;
        }
    }
    if carry < 0 {
        -1
    } else if carry > 0 || nonzero {
        1
    } else {
        0
    }
}

proof fn lemma_max_place(ds: Seq<Digit>)
    ensures
        forall|j: int| 0 <= j < ds.len() ==> (#[trigger] ds[j]).place as nat <= max_place(ds),
        max_place(ds) == 0 || exists|j: int| 0 <= j < ds.len() && (#[trigger] ds[j]).place as nat == max_place(ds),
    decreases ds.len(),
{
    if ds.len() > 0 {
        let p = ds.drop_last();
        lemma_max_place(p);
        assert forall|j: int| 0 <= j < ds.len() implies (#[trigger] ds[j]).place as nat <= max_place(ds) by {
            if j < ds.len() - 1 {
                assert(ds[j] == p[j]);
            }
        }
        if max_place(ds) != 0 {
            if ds.last().place as nat > max_place(p) {
                assert(ds[ds.len() - 1].place as nat == max_place(ds));
            } else {
                let j = choose|j: int| 0 <= j < p.len() && (#[trigger] p[j]).place as nat == max_place(p);
                assert(ds[j] == p[j]);
            }
        }
    }
}

impl Literal {
    /// A copy with the same digits.
    pub fn copy(&self) -> (r: Literal)
        ensures
            r@ == self@,
    {
        Literal { negative: self.negative, lead: self.lead, digits: self.digits.clone() }
    }

    /// Whether the literal denotes a value below zero, decided exactly on the
    /// numerator of its value over `10^s`, `s` its largest place.
    pub fn is_below_zero(&self) -> (r: bool)
        requires
            places_fit(self@),
        ensures
            r == below_zero(self@),
    {
        let ghost n = self@;
        let s = largest_place(&self.digits);
        proof {
            lemma_max_place(n.digits);
            if s != 0 {
                let j = choose|j: int| 0 <= j < n.digits.len() && (#[trigger] n.digits[j]).place as nat == max_place(n.digits);
            }
        }
        let mut c: Vec<i128> = Vec::new();
        while c.len() <= s
            invariant
                s < usize::MAX,
                c.len() <= s + 1,
                forall|j: int| 0 <= j < c.len() ==> c[j] == 0,
            decreases s + 1 - c.len(),
        {
            c.push(0);
        }
        proof {
            lemma_poly_zeros(c@);
        }
        let len = self.digits.len();
        let mut flip: bool = false;
        let mut i: usize = 0;
        while i < len
            invariant
                n == self@,
                len == n.digits.len(),
                s as nat == max_place(n.digits),
                forall|j: int| 0 <= j < n.digits.len() ==> (#[trigger] n.digits[j]).place as nat <= s,
                i <= len,
                c.len() >= s + 1,
                forall|j: int| 0 <= j < c.len() ==> -255 * i <= #[trigger] c[j] <= 255 * i,
                scaled_prefix(n, s as nat, i as nat) == if flip {
                    -poly(c@)
                } else {
                    poly(c@)
                },
            decreases len - i,
        {
            if self.negative && i == self.lead {
                flip = !flip;
            }
            let d = self.digits[i];
            let delta: i128 = if flip {
                -(d.value as i128)
            } else {
                d.value as i128
            };
            let ghost x = if negated_at(n, i as nat) {
                -scaled_prefix(n, s as nat, i as nat)
            } else {
                scaled_prefix(n, s as nat, i as nat)
            };
            assert(x == if flip { -poly(c@) } else { poly(c@) });
            assert(n.digits[i as int] == d);
            let idx: usize = if d.place == 0 {
                let ghost c0 = c@;
                c.insert(0, 0);
                proof {
                    assert(c@ =~= seq![0i128] + c0);
                    lemma_poly_shift(c0);
                }
                s
            } else {
                s - d.place
            };
            let ghost c1 = c@;
            let ghost p = pow10(idx as nat);
            let old_value = c[idx];
            c.set(idx, old_value + delta);
            proof {
                lemma_poly_set(c1, idx as int, (old_value + delta) as i128);
                assert(c@ == c1.update(idx as int, (old_value + delta) as i128));
                assert((old_value + delta - old_value) * p == delta * p);
                if flip {
                    assert(delta * p == -(d.value * p)) by (nonlinear_arith)
                        requires
                            delta == -(d.value as int),
                    ;
                } else {
                    assert(delta * p == d.value * p);
                }
                assert forall|j: int| 0 <= j < c.len() implies -255 * (i + 1) <= #[trigger] c[j] <= 255 * (i + 1) by {
                    if j != idx {
                        assert(c@[j] == c1[j]);
                    }
                }
            }
            i += 1;
        }
        if self.negative && self.lead >= len {
            flip = !flip;
        }
        proof {
            assert(255 * len <= 0x1_0000_0000_0000_0000_0000_0000);
        }
        let sign = poly_sign(&c, 255 * (len as i128));
        if flip {
            sign == 1
        } else {
            sign == -1
        }
    }
}

/// A token of an arithmetic expression.
#[derive(Debug, PartialEq)]
pub enum Token {
    Number(Literal),
    Op(Operator),
    Bracket(char),
}

/// The mathematical form of a token.
pub enum TokenV {
    Number(Num),
    Op(Operator),
    Bracket(char),
}

impl View for Token {
    type V = TokenV;

    open spec fn view(&self) -> TokenV {
        match self {
            Token::Number(l) => TokenV::Number(l@),
            Token::Op(o) => TokenV::Op(*o),
            Token::Bracket(c) => TokenV::Bracket(*c),
        }
    }
}

/// The mathematical form of a token sequence.
pub open spec fn toks(v: Seq<Token>) -> Seq<TokenV> {
    v.map_values(|t: Token| t@)
}

impl Token {
    /// A copy of the token.
    pub fn copy(&self) -> (r: Token)
        ensures
            r@ == self@,
    {
        match self {
            Token::Number(l) => Token::Number(l.copy()),
            Token::Op(o) => Token::Op(*o),
            Token::Bracket(c) => Token::Bracket(*c),
        }
    }
}

/// Why a text is not a well-formed expression.
#[derive(Debug, Clone, Copy, PartialEq, Eq, Structural)]
pub enum Error {
    BadToken(char),
    MismatchedParenthesies,
}

pub(crate) proof fn lemma_toks_push(v: Seq<Token>, t: Token)
    ensures
        toks(v.push(t)) == toks(v).push(t@),
{
    assert(toks(v.push(t)) =~= toks(v).push(t@));
}

/// Appends `t` to `tokens`.
pub(crate) fn push_token(tokens: &mut Vec<Token>, t: Token)
    ensures
        toks(final(tokens)@) == toks(old(tokens)@).push(t@),
{
    proof {
        lemma_toks_push(tokens@, t);
    }
    tokens.push(t);
}

} // verus!
