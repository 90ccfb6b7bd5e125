//! Reading the engine's whitespace-separated tokens, and buffering the
//! text sent back to it.

use vstd::prelude::*;

use crate::game::{Command, Direction};

verus! {

/// Why data from the engine could not be taken in.
#[derive(Clone, Copy, Debug, PartialEq, Eq, Hash, Structural)]
pub enum EngineParseError {
    /// A token is not a number of the expected type.
    InvalidToken,
    /// The input ended before the data was complete.
    MissingToken,
    /// A turn lists players other than the known ones, in their order.
    UnknownPlayer,
    /// The game's start lists a player twice.
    DuplicatePlayer,
    /// Tokens remain after all the data was read.
    LeftoverToken,
}

} // verus!

verus! {

/// An error of reading: a token that is not a number of the expected type,
/// or input that ended too soon.
pub open spec fn read_error(e: EngineParseError) -> bool {
    e == EngineParseError::InvalidToken || e == EngineParseError::MissingToken
}

/// The bytes that separate tokens: space, tab, line feed, vertical tab,
/// form feed and carriage return.
pub open spec fn is_space(b: u8) -> bool {
    b == 32 || (9 <= b <= 13)
}

/// Left-to-right scan of `s`: the tokens completed so far and the token
/// being read.
pub open spec fn scan(s: Seq<u8>) -> (Seq<Seq<u8>>, Seq<u8>)
    decreases s.len(),
{
    if s.len() == 0 {
        (Seq::empty(), Seq::empty())
    } else {
        let (ts, cur) = scan(s.drop_last());
        let b = s.last();
        if is_space(b) {
            if cur.len() > 0 {
                (ts.push(cur), Seq::empty())
            } else {
                (ts, Seq::empty())
            }
        } else {
            (ts, cur.push(b))
        }
    }
}

/// The maximal runs of non-space bytes of `s`, in order.
pub open spec fn split_tokens(s: Seq<u8>) -> Seq<Seq<u8>> {
    let (ts, cur) = scan(s);
    if cur.len() > 0 {
        ts.push(cur)
    } else {
        ts
    }
}

pub open spec fn is_digit(b: u8) -> bool {
    48 <= b <= 57
}

pub open spec fn all_digits(s: Seq<u8>) -> bool {
    s.len() > 0 && forall|i: int| 0 <= i < s.len() ==> is_digit(#[trigger] s[i])
}

/// The number that a string of decimal digits writes.
pub open spec fn digits_value(s: Seq<u8>) -> nat
    decreases s.len(),
{
    if s.len() == 0 {
        0
    } else {
        digits_value(s.drop_last()) * 10 + (s.last() - 48) as nat
    }
}

/// The value of an unsigned decimal token: digits with an optional leading
/// `+`.
pub open spec fn unsigned_token(s: Seq<u8>) -> Option<nat> {
    if s.len() > 0 && s[0] == 43 && all_digits(s.drop_first()) {
        Some(digits_value(s.drop_first()))
    } else if all_digits(s) {
        Some(digits_value(s))
    } else {
        None
    }
}

/// The value of a decimal token with an optional sign.
pub open spec fn int_token(s: Seq<u8>) -> Option<int> {
    if s.len() > 0 && s[0] == 45 && all_digits(s.drop_first()) {
        Some(-digits_value(s.drop_first()))
    } else {
        match unsigned_token(s) {
            Some(v) => Some(v as int),
            None => None,
        }
    }
}

/// Whether the tokens `ts` write, one by one, the numbers `vs`.
pub open spec fn denote(ts: Seq<Seq<u8>>, vs: Seq<int>) -> bool {
    &&& ts.len() == vs.len()
    &&& forall|i: int| 0 <= i < ts.len() ==> int_token(#[trigger] ts[i]) == Some(vs[i])
}

/// The decimal digits of `n`, most significant first.
pub open spec fn decimal(n: nat) -> Seq<u8>
    decreases n,
{
    if n < 10 {
        seq![(48 + n) as u8]
    } else {
        decimal(n / 10).push((48 + n % 10) as u8)
    }
}

proof fn lemma_digits_value_prefix_grows(s: Seq<u8>, i: int)
    requires
        0 <= i <= s.len(),
    ensures
        digits_value(s.take(i)) <= digits_value(s),
    decreases s.len() - i,
{
    if i < s.len() {
        lemma_digits_value_prefix_grows(s, i + 1);
        assert(s.take(i + 1).drop_last() =~= s.take(i));
    } else {
        assert(s.take(i) =~= s);
    }
}


/// Parse a run of decimal digits that fits in a `usize`.
fn parse_digits(s: &[u8], from: usize) -> (r: Option<usize>)
    requires
        from <= s@.len(),
    ensures
        r == (if all_digits(s@.skip(from as int)) && digits_value(s@.skip(from as int))
            <= usize::MAX {
            Some(digits_value(s@.skip(from as int)) as usize)
        } else {
            None::<usize>
        }),
{
    let ghost d = s@.skip(from as int);
    if from >= s.len() {
        return None;
    }
    let mut v: usize = 0;
    let mut i: usize = from;
    while i < s.len()
        invariant
            from <= i <= s@.len(),
            d == s@.skip(from as int),
            forall|j: int| 0 <= j < i - from ==> is_digit(#[trigger] d[j]),
            v == digits_value(d.take(i - from)),
        decreases s@.len() - i,
    {
        let b = s[i];
        if b < 48 || b > 57 {
            assert(!is_digit(d[i - from]));
            return None;
        }
        let digit = (b - 48) as usize;
        assert(d.take(i - from + 1).drop_last() =~= d.take(i - from));
        if v > (usize::MAX - digit) / 10 {
            proof {
                lemma_digits_value_prefix_grows(d, i - from + 1);
                assert(v * 10 + digit > usize::MAX) by (nonlinear_arith)
                    requires
                        v > (usize::MAX - digit) / 10,
                        0 <= digit <= 9,
                ;
            }
            return None;
        }
        v = v * 10 + digit;
        i = i + 1;
    }
    assert(d.take(i - from) =~= d);
    Some(v)
}

} // verus!

verus! {

/// Whether `new` is `old` followed by tokens that write the numbers `vs`.
pub open spec fn took(old: Seq<Seq<u8>>, new: Seq<Seq<u8>>, vs: Seq<int>) -> bool {
    &&& new.len() == old.len() + vs.len()
    &&& new.take(old.len() as int) == old
    &&& denote(new.skip(old.len() as int), vs)
}

/// Reading in two steps is reading the two parts in one.
pub proof fn lemma_took_trans(
    a: Seq<Seq<u8>>,
    b: Seq<Seq<u8>>,
    c: Seq<Seq<u8>>,
    u: Seq<int>,
    v: Seq<int>,
)
    requires
        took(a, b, u),
        took(b, c, v),
    ensures
        took(a, c, u + v),
{
    assert(c.take(a.len() as int) =~= b.take(a.len() as int));
    assert forall|i: int| 0 <= i < c.len() - a.len() implies int_token(
        #[trigger] c.skip(a.len() as int)[i],
    ) == Some((u + v)[i]) by {
        if i < u.len() {
            assert(c.skip(a.len() as int)[i] == b[a.len() + i]);
            assert(b.skip(a.len() as int)[i] == b[a.len() + i]);
        } else {
            assert(c.skip(a.len() as int)[i] == c.skip(b.len() as int)[i - u.len()]);
        }
    }
}

/// Nothing read.
pub proof fn lemma_took_nothing(a: Seq<Seq<u8>>)
    ensures
        took(a, a, Seq::empty()),
{
    assert(a.take(a.len() as int) =~= a);
}

/// Where the engine's lines come from.
pub trait LineSource {
    /// The next line, without or with its line ending; `None` once the
    /// input has ended.
    fn read_line(&mut self) -> (r: Option<Vec<u8>>);
}

/// Reads the engine's whitespace-separated tokens one line at a time, and
/// gathers the text to send back to it.
pub struct Engine {
    tokens: Vec<Vec<u8>>,
    taken: Ghost<Seq<Seq<u8>>>,
    out: Vec<u8>,
}

/// Parse an unsigned decimal token.
pub fn parse_usize(s: &[u8]) -> (r: Option<usize>)
    ensures
        r == (match unsigned_token(s@) {
            Some(v) => if v <= usize::MAX {
                Some(v as usize)
            } else {
                None::<usize>
            },
            None => None::<usize>,
        }),
{
    if s.len() > 0 && s[0] == 43 {
        assert(s@.skip(1) =~= s@.drop_first());
        assert(!is_digit(s@[0]));
        parse_digits(s, 1)
    } else {
        assert(s@.skip(0) =~= s@);
        parse_digits(s, 0)
    }
}

/// Parse a signed decimal token.
pub fn parse_isize(s: &[u8]) -> (r: Option<isize>)
    ensures
        r == (match int_token(s@) {
            Some(v) => if isize::MIN <= v <= isize::MAX {
                Some(v as isize)
            } else {
                None::<isize>
            },
            None => None::<isize>,
        }),
{
    if s.len() > 0 && s[0] == 45 {
        assert(s@.skip(1) =~= s@.drop_first());
        match parse_digits(s, 1) {
            Some(m) => {
                if m <= isize::MAX as usize {
                    Some(-(m as isize))
                } else if m == isize::MAX as usize + 1 {
                    Some(isize::MIN)
                } else {
                    None
                }
            },
            None => None,
        }
    } else {
        match parse_usize(s) {
            Some(m) => {
                if m <= isize::MAX as usize {
                    Some(m as isize)
                } else {
                    None
                }
            },
            None => None,
        }
    }
}

} // verus!

verus! {

impl Engine {
    /// The tokens read from the input and not yet consumed.
    pub closed spec fn pending(&self) -> Seq<Seq<u8>> {
        self.tokens@.map_values(|t: Vec<u8>| t@)
    }

    /// Every token consumed so far, in order.
    pub closed spec fn consumed(&self) -> Seq<Seq<u8>> {
        self.taken@
    }

    /// The text gathered to be sent.
    pub closed spec fn outgoing(&self) -> Seq<u8> {
        self.out@
    }

    /// Create a new Engine with nothing read and nothing to send.
    pub fn new() -> (r: Engine)
        ensures
            r.pending() == Seq::<Seq<u8>>::empty(),
            r.consumed() == Seq::<Seq<u8>>::empty(),
            r.outgoing() == Seq::<u8>::empty(),
    {
        let r = Engine { tokens: Vec::new(), taken: Ghost(Seq::empty()), out: Vec::new() };
        assert(r.pending() =~= Seq::<Seq<u8>>::empty());
        r
    }

    /// Split a line into tokens and queue them.
    pub fn push_line(&mut self, line: &[u8])
        ensures
            final(self).pending() == old(self).pending() + split_tokens(line@),
            final(self).consumed() == old(self).consumed(),
            final(self).outgoing() == old(self).outgoing(),
    {
        let ghost start = self.pending();
        let mut cur: Vec<u8> = Vec::new();
        let mut i: usize = 0;
        while i < line.len()
            invariant
                0 <= i <= line@.len(),
                self.pending() == start + scan(line@.take(i as int)).0,
                cur@ == scan(line@.take(i as int)).1,
                self.consumed() == old(self).consumed(),
                self.outgoing() == old(self).outgoing(),
            decreases line@.len() - i,
        {
            let b = line[i];
            assert(line@.take(i + 1).drop_last() =~= line@.take(i as int));
            if b == 32 || (9 <= b && b <= 13) {
                if cur.len() > 0 {
                    let ghost before = self.pending();
                    let ghost tv = cur@;
                    self.tokens.push(cur);
                    cur = Vec::new();
                    assert(self.pending() =~= before.push(tv));
                    assert(self.pending() =~= start + scan(line@.take(i + 1)).0);
                }
            } else {
                cur.push(b);
            }
            i = i + 1;
        }
        assert(line@.take(line@.len() as int) =~= line@);
        if cur.len() > 0 {
            let ghost before = self.pending();
            let ghost tv = cur@;
            self.tokens.push(cur);
            assert(self.pending() =~= before.push(tv));
            assert(self.pending() =~= start + split_tokens(line@));
        } else {
            assert(self.pending() =~= start + split_tokens(line@));
        }
    }

    /// Every token received so far: those consumed, then those pending.
    pub open spec fn stream(&self) -> Seq<Seq<u8>> {
        self.consumed() + self.pending()
    }

    /// `later` has received at least what `self` had, and sends the same.
    pub open spec fn extended_by(&self, later: Engine) -> bool {
        &&& later.stream().len() >= self.stream().len()
        &&& later.stream().take(self.stream().len() as int) == self.stream()
        &&& later.consumed().len() >= self.consumed().len()
        &&& later.outgoing() == self.outgoing()
    }

    /// Take the first pending token; when none is pending, read lines from
    /// `src` until one holds a token. `None` once the input has ended.
    fn next_token<S: LineSource>(&mut self, src: &mut S) -> (r: Option<Vec<u8>>)
        ensures
            old(self).extended_by(*final(self)),
            old(self).pending().len() > 0 ==> r is Some && final(self).pending()
                == old(self).pending().drop_first(),
            match r {
                Some(t) => {
                    &&& final(self).consumed() == old(self).consumed().push(t@)
                    &&& old(self).pending().len() > 0 ==> t@ == old(self).pending()[0]
                },
                None => final(self).consumed() == old(self).consumed() && old(self).pending().len()
                    == 0 && final(self).pending().len() == 0,
            },
    {
        proof {
            assert(old(self).stream().take(old(self).stream().len() as int) =~= old(self).stream());
        }
        let mut ended = false;
        let mut budget: usize = usize::MAX;
        while self.tokens.len() == 0 && !ended && budget > 0
            invariant
                old(self).extended_by(*self),
                self.consumed() == old(self).consumed(),
                old(self).pending().len() > 0 ==> *self == *old(self),
            decreases budget,
        {
            match src.read_line() {
                Some(line) => {
                    let ghost before = *self;
                    self.push_line(line.as_slice());
                    proof {
                        assert(self.stream() =~= before.stream() + split_tokens(line@));
                        assert(self.stream().take(old(self).stream().len() as int) =~= old(self).stream());
                    }
                },
                None => {
                    ended = true;
                },
            }
            budget = budget - 1;
        }
        if self.tokens.len() == 0 {
            return None;
        }
        let ghost before = *self;
        let t = self.tokens.remove(0);
        self.taken = Ghost(self.taken@.push(t@));
        proof {
            assert(before.pending()[0] == t@);
            assert(self.pending() =~= before.pending().drop_first());
            assert(self.stream() =~= before.stream());
        }
        Some(t)
    }

    /// Read the next token as a `usize`: the first pending token when there
    /// is one.
    pub fn next_usize<S: LineSource>(&mut self, src: &mut S) -> (r: Result<usize, EngineParseError>)
        ensures
            old(self).extended_by(*final(self)),
            old(self).pending().len() > 0 ==> {
                let t = old(self).pending()[0];
                &&& final(self).pending() == old(self).pending().drop_first()
                &&& final(self).consumed() == old(self).consumed().push(t)
                &&& (r is Ok <==> (unsigned_token(t) is Some && unsigned_token(t)->0 <= usize::MAX))
                &&& r is Ok ==> r->Ok_0 == unsigned_token(t)->0
                &&& r is Err ==> r->Err_0 == EngineParseError::InvalidToken
            },
            match r {
                Ok(v) => took(old(self).consumed(), final(self).consumed(), seq![v as int])
                    && unsigned_token(final(self).consumed().last()) == Some(v as nat),
                Err(EngineParseError::InvalidToken) => final(self).consumed().drop_last()
                    == old(self).consumed() && final(self).consumed().len() == old(
                    self,
                ).consumed().len() + 1 && !(unsigned_token(final(self).consumed().last()) is Some
                    && unsigned_token(final(self).consumed().last())->0 <= usize::MAX),
                Err(EngineParseError::MissingToken) => final(self).consumed() == old(
                    self,
                ).consumed() && old(self).pending().len() == 0,
                Err(_) => false,
            },
    {
        match self.next_token(src) {
            Some(t) => match parse_usize(t.as_slice()) {
                Some(v) => {
                    proof {
                        let c = self.consumed();
                        assert(c.take(old(self).consumed().len() as int) =~= old(self).consumed());
                        assert(c.skip(old(self).consumed().len() as int) =~= seq![t@]);
                        assert(int_token(t@) == Some(v as int));
                    }
                    Ok(v)
                },
                None => {
                    assert(self.consumed().drop_last() =~= old(self).consumed());
                    Err(EngineParseError::InvalidToken)
                },
            },
            None => Err(EngineParseError::MissingToken),
        }
    }

    /// Read the next token as an `isize`: the first pending token when there
    /// is one.
    pub fn next_isize<S: LineSource>(&mut self, src: &mut S) -> (r: Result<isize, EngineParseError>)
        ensures
            old(self).extended_by(*final(self)),
            old(self).pending().len() > 0 ==> {
                let t = old(self).pending()[0];
                &&& final(self).pending() == old(self).pending().drop_first()
                &&& final(self).consumed() == old(self).consumed().push(t)
                &&& (r is Ok <==> (int_token(t) is Some && isize::MIN <= int_token(t)->0
                    <= isize::MAX))
                &&& r is Ok ==> r->Ok_0 == int_token(t)->0
                &&& r is Err ==> r->Err_0 == EngineParseError::InvalidToken
            },
            match r {
                Ok(v) => took(old(self).consumed(), final(self).consumed(), seq![v as int]),
                Err(EngineParseError::InvalidToken) => final(self).consumed().drop_last()
                    == old(self).consumed() && final(self).consumed().len() == old(
                    self,
                ).consumed().len() + 1 && !(int_token(final(self).consumed().last()) is Some
                    && isize::MIN <= int_token(final(self).consumed().last())->0 <= isize::MAX),
                Err(EngineParseError::MissingToken) => final(self).consumed() == old(
                    self,
                ).consumed() && old(self).pending().len() == 0,
                Err(_) => false,
            },
    {
        match self.next_token(src) {
            Some(t) => match parse_isize(t.as_slice()) {
                Some(v) => {
                    proof {
                        let c = self.consumed();
                        assert(c.take(old(self).consumed().len() as int) =~= old(self).consumed());
                        assert(c.skip(old(self).consumed().len() as int) =~= seq![t@]);
                    }
                    Ok(v)
                },
                None => {
                    assert(self.consumed().drop_last() =~= old(self).consumed());
                    Err(EngineParseError::InvalidToken)
                },
            },
            None => Err(EngineParseError::MissingToken),
        }
    }

    /// Whether every token read has been consumed: what must hold once a
    /// turn's data has been taken in.
    pub fn is_drained(&self) -> (r: bool)
        ensures
            r == (self.pending().len() == 0),
    {
        self.tokens.len() == 0
    }
}

} // verus!

verus! {

/// The letter of a move: `n`, `e`, `s` or `w`.
pub open spec fn direction_letter(d: Direction) -> u8 {
    match d {
        Direction::North => 110,
        Direction::East => 101,
        Direction::South => 115,
        Direction::West => 119,
    }
}

/// The text of a command, with its trailing space: `g`, `c <id>`,
/// `m <id> o` or `m <id> <letter>`.
pub open spec fn command_text(c: Command) -> Seq<u8> {
    match c {
        Command::Spawn => seq![103u8, 32u8],
        Command::ConvertToDropoff(id) => seq![99u8, 32u8] + decimal(id.0 as nat) + seq![32u8],
        Command::Collect(id) => seq![109u8, 32u8] + decimal(id.0 as nat) + seq![32u8, 111u8, 32u8],
        Command::Move(id, d) => seq![109u8, 32u8] + decimal(id.0 as nat) + seq![
            32u8,
            direction_letter(d),
            32u8,
        ],
    }
}

fn push_decimal(out: &mut Vec<u8>, n: usize)
    ensures
        final(out)@ == old(out)@ + decimal(n as nat),
    decreases n,
{
    if n >= 10 {
        push_decimal(out, n / 10);
    }
    out.push((48 + n % 10) as u8);
    proof {
        if n < 10 {
            vstd::arithmetic::div_mod::lemma_small_mod(n as nat, 10);
        }
    }
    assert(out@ =~= old(out)@ + decimal(n as nat));
}

impl Command {
    /// Append this command's text to the engine's outgoing text.
    pub fn send_to_engine(&self, engine: &mut Engine)
        ensures
            final(engine).outgoing() == old(engine).outgoing() + command_text(*self),
            final(engine).pending() == old(engine).pending(),
            final(engine).consumed() == old(engine).consumed(),
    {
        let out = &mut engine.out;
        match *self {
            Command::Spawn => {
                out.push(103);
                out.push(32);
            },
            Command::ConvertToDropoff(id) => {
                out.push(99);
                out.push(32);
                push_decimal(out, id.0);
                out.push(32);
            },
            Command::Collect(id) => {
                out.push(109);
                out.push(32);
                push_decimal(out, id.0);
                out.push(32);
                out.push(111);
                out.push(32);
            },
            Command::Move(id, d) => {
                out.push(109);
                out.push(32);
                push_decimal(out, id.0);
                out.push(32);
                let letter: u8 = match d {
                    Direction::North => 110,
                    Direction::East => 101,
                    Direction::South => 115,
                    Direction::West => 119,
                };
                out.push(letter);
                out.push(32);
            },
        }
        assert(engine.out@ =~= old(engine).out@ + command_text(*self));
    }
}

impl Engine {
    /// Queue a command to be sent.
    pub fn send(&mut self, command: &Command)
        ensures
            final(self).outgoing() == old(self).outgoing() + command_text(*command),
            final(self).pending() == old(self).pending(),
            final(self).consumed() == old(self).consumed(),
    {
        command.send_to_engine(self);
    }

    /// Queue some text to be sent, followed by a space.
    pub fn print(&mut self, text: &[u8])
        ensures
            final(self).outgoing() == old(self).outgoing() + text@ + seq![32u8],
            final(self).pending() == old(self).pending(),
            final(self).consumed() == old(self).consumed(),
    {
        let mut i: usize = 0;
        while i < text.len()
            invariant
                0 <= i <= text@.len(),
                self.out@ == old(self).out@ + text@.take(i as int),
                self.tokens == old(self).tokens,
                self.taken == old(self).taken,
            decreases text@.len() - i,
        {
            self.out.push(text[i]);
            assert(text@.take(i + 1) =~= text@.take(i as int).push(text@[i as int]));
            i = i + 1;
        }
        self.out.push(32);
        assert(text@.take(text@.len() as int) =~= text@);
        assert(self.out@ =~= old(self).out@ + text@ + seq![32u8]);
    }

    /// End the current output line: return everything gathered, followed by
    /// a line feed and the space that follows every piece of text sent, and
    /// start afresh.
    pub fn flush(&mut self) -> (r: Vec<u8>)
        ensures
            r@ == old(self).outgoing() + seq![10u8, 32u8],
            final(self).outgoing() == Seq::<u8>::empty(),
            final(self).pending() == old(self).pending(),
            final(self).consumed() == old(self).consumed(),
    {
        self.out.push(10);
        self.out.push(32);
        let mut r: Vec<u8> = Vec::new();
        std::mem::swap(&mut self.out, &mut r);
        assert(r@ =~= old(self).outgoing() + seq![10u8, 32u8]);
        r
    }
}

} // verus!

verus! {

proof fn lemma_decimal_digits(n: nat)
    ensures
        decimal(n).len() >= 1,
        n >= 10 ==> decimal(n).len() >= 2,
        forall|i: int| 0 <= i < decimal(n).len() ==> is_digit(#[trigger] decimal(n)[i]),
    decreases n,
{
    if n >= 10 {
        lemma_decimal_digits(n / 10);
        let p = decimal(n / 10);
        assert forall|i: int| 0 <= i < decimal(n).len() implies is_digit(#[trigger] decimal(n)[i]) by {
            if i < p.len() {
                assert(decimal(n)[i] == p[i]);
            }
        }
    }
}

proof fn lemma_decimal_injective(a: nat, b: nat)
    requires
        decimal(a) == decimal(b),
    ensures
        a == b,
    decreases a,
{
    lemma_decimal_digits(a);
    lemma_decimal_digits(b);
    if a >= 10 && b >= 10 {
        assert(decimal(a / 10) == decimal(a).drop_last());
        assert(decimal(b / 10) == decimal(b).drop_last());
        lemma_decimal_injective(a / 10, b / 10);
        assert(decimal(a).last() == decimal(b).last());
        vstd::arithmetic::div_mod::lemma_mod_pos_bound(a as int, 10);
        vstd::arithmetic::div_mod::lemma_mod_pos_bound(b as int, 10);
        assert(decimal(a).last() == (48 + a % 10) as u8);
        assert(decimal(b).last() == (48 + b % 10) as u8);
        assert(a % 10 == b % 10);
        vstd::arithmetic::div_mod::lemma_fundamental_div_mod(a as int, 10);
        vstd::arithmetic::div_mod::lemma_fundamental_div_mod(b as int, 10);
    } else if a < 10 && b < 10 {
        assert(decimal(a)[0] == decimal(b)[0]);
        assert(decimal(a)[0] == (48 + a) as u8);
        assert(decimal(b)[0] == (48 + b) as u8);
    } else {
        assert(decimal(a).len() == decimal(b).len());
    }
}

/// Two digit strings each followed by a space-led text: equal wholes have
/// equal digit strings and equal rests.
proof fn lemma_split_digits(s1: Seq<u8>, t1: Seq<u8>, s2: Seq<u8>, t2: Seq<u8>)
    requires
        forall|i: int| 0 <= i < s1.len() ==> is_digit(#[trigger] s1[i]),
        forall|i: int| 0 <= i < s2.len() ==> is_digit(#[trigger] s2[i]),
        t1.len() > 0 && t1[0] == 32,
        t2.len() > 0 && t2[0] == 32,
        s1 + t1 == s2 + t2,
    ensures
        s1 == s2,
        t1 == t2,
{
    if s1.len() < s2.len() {
        assert((s1 + t1)[s1.len() as int] == t1[0]);
        assert((s2 + t2)[s1.len() as int] == s2[s1.len() as int]);
    } else if s2.len() < s1.len() {
        assert((s2 + t2)[s2.len() as int] == t2[0]);
        assert((s1 + t1)[s2.len() as int] == s1[s2.len() as int]);
    }
    assert(s1 =~= (s1 + t1).subrange(0, s1.len() as int));
    assert(s2 =~= (s2 + t2).subrange(0, s2.len() as int));
    assert(t1 =~= (s1 + t1).subrange(s1.len() as int, (s1 + t1).len() as int));
    assert(t2 =~= (s2 + t2).subrange(s2.len() as int, (s2 + t2).len() as int));
}

/// The first letter of a command's text.
spec fn first_letter(c: Command) -> u8 {
    match c {
        Command::Spawn => 103,
        Command::ConvertToDropoff(_) => 99,
        _ => 109,
    }
}

/// The ship a command names (zero for a spawn).
spec fn named_ship(c: Command) -> usize {
    match c {
        Command::Spawn => 0,
        Command::ConvertToDropoff(id) => id.0,
        Command::Collect(id) => id.0,
        Command::Move(id, _) => id.0,
    }
}

/// What follows the ship's number in a command's text.
spec fn text_tail(c: Command) -> Seq<u8> {
    match c {
        Command::Spawn => Seq::empty(),
        Command::ConvertToDropoff(_) => seq![32u8],
        Command::Collect(_) => seq![32u8, 111u8, 32u8],
        Command::Move(_, d) => seq![32u8, direction_letter(d), 32u8],
    }
}

proof fn lemma_text_shape(c: Command)
    ensures
        command_text(c).len() >= 2,
        command_text(c)[0] == first_letter(c),
        c is Spawn ==> command_text(c) == seq![103u8, 32u8],
        !(c is Spawn) ==> command_text(c).drop_first().drop_first() == decimal(named_ship(c) as nat)
            + text_tail(c),
        !(c is Spawn) ==> text_tail(c).len() > 0 && text_tail(c)[0] == 32,
{
    lemma_decimal_digits(named_ship(c) as nat);
    let t = command_text(c);
    if !(c is Spawn) {
        assert(t.drop_first().drop_first() =~= decimal(named_ship(c) as nat) + text_tail(c));
    }
}

/// A command's text determines the command: reading a text back by the
/// line grammar gives the command that was written.
pub proof fn lemma_command_text_injective(a: Command, b: Command)
    requires
        command_text(a) == command_text(b),
    ensures
        a == b,
{
    lemma_text_shape(a);
    lemma_text_shape(b);
    if !(a is Spawn) && !(b is Spawn) {
        let x = named_ship(a) as nat;
        let y = named_ship(b) as nat;
        lemma_decimal_digits(x);
        lemma_decimal_digits(y);
        lemma_split_digits(decimal(x), text_tail(a), decimal(y), text_tail(b));
        lemma_decimal_injective(x, y);
        if first_letter(a) == 109 {
            assert(text_tail(a)[1] == text_tail(b)[1]);
        }
    }
}

} // verus!

verus! {

/// Whether `ts` begins with tokens that write the numbers `vs`, each in the
/// form that both signed and unsigned reads accept (no `-` on a value that
/// is not negative).
pub open spec fn writes(ts: Seq<Seq<u8>>, vs: Seq<int>) -> bool {
    &&& vs.len() <= ts.len()
    &&& forall|i: int|
        0 <= i < vs.len() ==> int_token(#[trigger] ts[i]) == Some(vs[i]) && (vs[i] >= 0
            ==> unsigned_token(ts[i]) == Some(vs[i] as nat))
}

/// The middle part of what `ts` writes is written by `ts` from its offset.
pub proof fn lemma_writes_mid(ts: Seq<Seq<u8>>, a: Seq<int>, b: Seq<int>, c: Seq<int>)
    requires
        writes(ts, a + b + c),
    ensures
        writes(ts.skip(a.len() as int), b),
{
    assert forall|i: int| 0 <= i < b.len() implies int_token(#[trigger] ts.skip(a.len() as int)[i])
        == Some(b[i]) && (b[i] >= 0 ==> unsigned_token(ts.skip(a.len() as int)[i]) == Some(
        b[i] as nat,
    )) by {
        assert(ts.skip(a.len() as int)[i] == ts[a.len() + i]);
        assert((a + b + c)[a.len() + i] == b[i]);
    }
}

/// What `ts` writes is determined by `ts` position by position.
pub proof fn lemma_writes_agree(ts: Seq<Seq<u8>>, a: Seq<int>, b: Seq<int>)
    requires
        writes(ts, a),
        writes(ts, b),
    ensures
        forall|i: int| 0 <= i < a.len() && i < b.len() ==> a[i] == b[i],
        a.len() == b.len() ==> a == b,
{
    assert forall|i: int| 0 <= i < a.len() && i < b.len() implies a[i] == b[i] by {
        assert(int_token(ts[i]) == Some(a[i]));
    }
    if a.len() == b.len() {
        assert(a =~= b);
    }
}

/// Being extended is transitive.
pub proof fn lemma_extended_trans(a: Engine, b: Engine, c: Engine)
    requires
        a.extended_by(b),
        b.extended_by(c),
    ensures
        a.extended_by(c),
{
    assert(c.stream().take(a.stream().len() as int) =~= b.stream().take(a.stream().len() as int));
}

} // verus!
