//! Input events for the motion space, and the command parser that turns raw
//! lines into them: set the current user, post a text, or request an
//! interaction. The parser is a pure step function; reading lines and
//! sending events over a channel stay with the caller.

use vstd::prelude::*;

use crate::embedding::{is_space, is_space_char, spec_tokens, tokenize};
use crate::motion_core::str_eq;

verus! {

/// A fault raised by the input front-end.
#[derive(Debug, Clone, PartialEq, Eq, Structural)]
pub enum InputError {
    /// A line could not be read.
    InvalidInput,
    /// The channel closed while sending an input event.
    ChannelError,
}

impl InputError {
    /// A short human-readable description of the fault.
    pub fn message(&self) -> (r: String)
        ensures
            r@.len() > 0,
    {
        proof {
            reveal_strlit("input is not valid");
            reveal_strlit("channel closed while sending post input");
        }
        match self {
            InputError::InvalidInput => "input is not valid".to_owned(),
            InputError::ChannelError => "channel closed while sending post input".to_owned(),
        }
    }
}

/// A new post: its id, its author, and its text.
#[derive(Debug, Clone)]
pub struct PostInput {
    pub id: String,
    pub user_id: String,
    pub text: String,
}

impl PostInput {
    pub fn new(id: &str, user_id: &str, text: &str) -> (r: PostInput)
        ensures
            r.id@ == id@,
            r.user_id@ == user_id@,
            r.text@ == text@,
    {
        PostInput { id: id.to_owned(), user_id: user_id.to_owned(), text: text.to_owned() }
    }
}

/// A new user: its id.
#[derive(Debug, Clone)]
pub struct UserInput {
    pub id: String,
}

impl UserInput {
    pub fn new(id: &str) -> (r: UserInput)
        ensures
            r.id@ == id@,
    {
        UserInput { id: id.to_owned() }
    }
}

/// Which update rule an interaction requests.
#[derive(Debug, Clone, Copy, PartialEq, Eq, Structural)]
pub enum InteractionType {
    PostToUser,
    UserToUser,
}

/// An interaction request: the rule, the two participants, and the blend
/// coefficient in fixed-point micro-units.
#[derive(Debug, Clone)]
pub struct Interaction {
    pub interaction_type: InteractionType,
    pub src_id: String,
    pub dst_id: String,
    pub alpha: i64,
}

/// The model of an interaction request.
pub ghost struct InteractionModel {
    pub kind: InteractionType,
    pub src: Seq<char>,
    pub dst: Seq<char>,
    pub alpha: i64,
}

impl View for Interaction {
    type V = InteractionModel;

    open spec fn view(&self) -> InteractionModel {
        InteractionModel {
            kind: self.interaction_type,
            src: self.src_id@,
            dst: self.dst_id@,
            alpha: self.alpha,
        }
    }
}

/// An input event for the processing loop.
#[derive(Debug, Clone)]
pub enum MotionInput {
    User(UserInput),
    Post(PostInput),
    Interaction(Interaction),
}

/// The model of an input event.
pub ghost enum InputModel {
    User(Seq<char>),
    Post { id: Seq<char>, user_id: Seq<char>, text: Seq<char> },
    Interaction(InteractionModel),
}

impl View for MotionInput {
    type V = InputModel;

    open spec fn view(&self) -> InputModel {
        match self {
            MotionInput::User(u) => InputModel::User(u.id@),
            MotionInput::Post(p) => InputModel::Post {
                id: p.id@,
                user_id: p.user_id@,
                text: p.text@,
            },
            MotionInput::Interaction(i) => InputModel::Interaction(i@),
        }
    }
}

impl DeepView for MotionInput {
    type V = InputModel;

    open spec fn deep_view(&self) -> InputModel {
        self.view()
    }
}

/// Relies on str::chars: the characters of the string, in order.
#[verifier::external_body]
fn str_chars(s: &str) -> (r: Vec<char>)
    ensures
        r@ == s@,
{
    s.chars().collect()
}

/// Relies on String's FromIterator over characters: collecting characters
/// yields the string with exactly those characters.
#[verifier::external_body]
fn chars_to_string(cs: &[char]) -> (r: String)
    ensures
        r@ == cs@,
{
    cs.iter().collect()
}

/// A character sequence with leading and trailing whitespace removed.
pub open spec fn spec_trim(s: Seq<char>) -> Seq<char>
    decreases s.len(),
{
    if s.len() == 0 {
        s
    } else if is_space_char(s[0]) {
        spec_trim(s.drop_first())
    } else if is_space_char(s.last()) {
        spec_trim(s.drop_last())
    } else {
        s
    }
}

/// Trim whitespace from both ends of a character slice.
fn trim_chars(s: &[char]) -> (r: Vec<char>)
    ensures
        r@ == spec_trim(s@),
{
    let mut lo: usize = 0;
    let mut hi: usize = s.len();
    proof {
        assert(s@.subrange(0, s@.len() as int) =~= s@);
    }
    while lo < hi
        invariant
            lo <= hi <= s@.len(),
            spec_trim(s@) == spec_trim(s@.subrange(lo as int, hi as int)),
        ensures
            lo <= hi <= s@.len(),
            spec_trim(s@) == s@.subrange(lo as int, hi as int),
        decreases hi - lo,
    {
        proof {
            assert(s@.subrange(lo as int, hi as int).drop_first() =~= s@.subrange(
                lo as int + 1,
                hi as int,
            ));
            assert(s@.subrange(lo as int, hi as int).drop_last() =~= s@.subrange(
                lo as int,
                hi as int - 1,
            ));
        }
        if is_space(s[lo]) {
            lo = lo + 1;
        } else if is_space(s[hi - 1]) {
            hi = hi - 1;
        } else {
            proof {
                assert(s@.subrange(lo as int, hi as int)[0] == s@[lo as int]);
                assert(s@.subrange(lo as int, hi as int).last() == s@[hi as int - 1]);
            }
            break ;
        }
    }
    proof {
        if lo >= hi {
            assert(s@.subrange(lo as int, hi as int) =~= Seq::<char>::empty());
        }
    }
    let mut out: Vec<char> = Vec::new();
    let mut i: usize = lo;
    while i < hi
        invariant
            lo <= i <= hi <= s@.len(),
            out@ =~= s@.subrange(lo as int, i as int),
        decreases hi - i,
    {
        proof {
            assert(s@.subrange(lo as int, i as int + 1) =~= s@.subrange(lo as int, i as int).push(
                s@[i as int],
            ));
        }
        out.push(s[i]);
        i = i + 1;
    }
    proof {
        assert(out@ =~= spec_trim(s@));
    }
    out
}

/// Ten to a small power, as a table.
pub open spec fn spec_pow10(n: int) -> int {
    if n <= 0 {
        1
    } else if n == 1 {
        10
    } else if n == 2 {
        100
    } else if n == 3 {
        1_000
    } else if n == 4 {
        10_000
    } else if n == 5 {
        100_000
    } else if n == 6 {
        1_000_000
    } else if n == 7 {
        10_000_000
    } else if n == 8 {
        100_000_000
    } else if n == 9 {
        1_000_000_000
    } else if n == 10 {
        10_000_000_000
    } else if n == 11 {
        100_000_000_000
    } else {
        1_000_000_000_000
    }
}

/// Whether a character is a decimal digit.
pub open spec fn spec_is_digit(c: char) -> bool {
    '0' <= c <= '9'
}

/// Whether every character is a decimal digit.
pub open spec fn spec_all_digits(s: Seq<char>) -> bool {
    forall|i: int| 0 <= i < s.len() ==> spec_is_digit(#[trigger] s[i])
}

/// The value of a digit sequence read as a decimal number.
pub open spec fn spec_digits_val(s: Seq<char>) -> int
    decreases s.len(),
{
    if s.len() == 0 {
        0
    } else {
        spec_digits_val(s.drop_last()) * 10 + (s.last() as int - '0' as int)
    }
}

/// The first position of a character, if it occurs.
pub open spec fn spec_find_char(s: Seq<char>, c: char) -> Option<int>
    decreases s.len(),
{
    if s.len() == 0 {
        None
    } else if s[0] == c {
        Some(0)
    } else {
        match spec_find_char(s.drop_first(), c) {
            Some(i) => Some(i + 1),
            None => None,
        }
    }
}

/// Scale a fraction of up to six digits to micro-units.
pub open spec fn spec_frac_scale(len: int) -> int {
    if len <= 0 {
        1_000_000
    } else if len == 1 {
        100_000
    } else if len == 2 {
        10_000
    } else if len == 3 {
        1_000
    } else if len == 4 {
        100
    } else if len == 5 {
        10
    } else {
        1
    }
}

/// The fixed-point value of a decimal literal: an optional sign, an integer
/// part of at most twelve digits, and an optional fraction of which the
/// first six digits count. Anything else does not parse.
pub open spec fn spec_parse_alpha(s: Seq<char>) -> Option<i64> {
    if s.len() == 0 {
        None
    } else {
        let (neg, body) = if s[0] == '-' {
            (true, s.drop_first())
        } else if s[0] == '+' {
            (false, s.drop_first())
        } else {
            (false, s)
        };
        let parsed = match spec_find_char(body, '.') {
            None => {
                if 1 <= body.len() <= 12 && spec_all_digits(body) {
                    Some(spec_digits_val(body) * 1_000_000)
                } else {
                    None
                }
            },
            Some(p) => {
                let ip = body.take(p);
                let fp = body.skip(p + 1);
                let f6 = if fp.len() <= 6 {
                    fp
                } else {
                    fp.take(6)
                };
                if ip.len() <= 12 && ip.len() + fp.len() >= 1 && spec_all_digits(ip)
                    && spec_all_digits(fp) {
                    Some(spec_digits_val(ip) * 1_000_000 + spec_digits_val(f6) * spec_frac_scale(
                        f6.len() as int,
                    ))
                } else {
                    None
                }
            },
        };
        match parsed {
            Some(v) => Some((if neg { -v } else { v }) as i64),
            None => None,
        }
    }
}

proof fn lemma_digits_val_bounds(s: Seq<char>)
    requires
        spec_all_digits(s),
        s.len() <= 12,
    ensures
        0 <= spec_digits_val(s),
        spec_digits_val(s) < spec_pow10(s.len() as int),
    decreases s.len(),
{
    if s.len() > 0 {
        assert(spec_all_digits(s.drop_last())) by {
            assert(forall|i: int| 0 <= i < s.len() - 1 ==> #[trigger] s.drop_last()[i] == s[i]);
        };
        lemma_digits_val_bounds(s.drop_last());
        let d = s.last() as int - '0' as int;
        assert(0 <= d <= 9);
        let p = spec_pow10(s.len() - 1);
        assert(spec_pow10(s.len() as int) == 10 * p);
        assert(0 <= spec_digits_val(s.drop_last()) * 10 + d < 10 * p) by (nonlinear_arith)
            requires
                spec_digits_val(s.drop_last()) <= p - 1,
                0 <= spec_digits_val(s.drop_last()),
                0 <= d <= 9,
                p >= 1,
        ;
    }
}

proof fn lemma_digits_val_take(s: Seq<char>, i: int)
    requires
        0 <= i < s.len(),
    ensures
        spec_digits_val(s.take(i + 1)) == spec_digits_val(s.take(i)) * 10 + (s[i] as int
            - '0' as int),
{
    assert(s.take(i + 1).drop_last() =~= s.take(i));
}

/// The value of a digit sequence of at most twelve digits, in micro-units of
/// one; fails on a non-digit.
fn parse_digits(s: &[char]) -> (r: Option<u64>)
    requires
        s@.len() <= 12,
    ensures
        match r {
            Some(v) => spec_all_digits(s@) && v as int == spec_digits_val(s@) && v
                < 1_000_000_000_000,
            None => !spec_all_digits(s@),
        },
{
    let mut acc: u64 = 0;
    let mut i: usize = 0;
    proof {
        assert(s@.take(0) =~= Seq::<char>::empty());
    }
    while i < s.len()
        invariant
            s@.len() <= 12,
            i <= s@.len(),
            spec_all_digits(s@.take(i as int)),
            acc as int == spec_digits_val(s@.take(i as int)),
            acc < 1_000_000_000_000,
        decreases s@.len() - i,
    {
        let c = s[i];
        if !('0' <= c && c <= '9') {
            proof {
                assert(!spec_is_digit(s@[i as int]));
            }
            return None;
        }
        proof {
            lemma_digits_val_take(s@, i as int);
            assert(s@.take(i as int + 1).take(i as int) =~= s@.take(i as int));
            assert(spec_all_digits(s@.take(i as int + 1))) by {
                assert(forall|j: int|
                    0 <= j < i as int + 1 ==> #[trigger] s@.take(i as int + 1)[j] == s@[j]);
            };
            lemma_digits_val_bounds(s@.take(i as int + 1));
            assert(spec_pow10(s@.take(i as int + 1).len() as int) <= 1_000_000_000_000);
        }
        let d = (c as u32) - ('0' as u32);
        acc = acc * 10 + (d as u64);
        i = i + 1;
    }
    proof {
        assert(s@.take(s@.len() as int) =~= s@);
    }
    Some(acc)
}

/// The first position of a character in a slice, if it occurs.
fn find_char(s: &[char], c: char) -> (r: Option<usize>)
    ensures
        match r {
            Some(i) => spec_find_char(s@, c) == Some(i as int),
            None => spec_find_char(s@, c) is None,
        },
{
    proof {
        lemma_find_char_first(s@, c);
    }
    let mut i: usize = 0;
    while i < s.len()
        invariant
            i <= s@.len(),
            forall|j: int| 0 <= j < i as int ==> s@[j] != c,
        decreases s@.len() - i,
    {
        if s[i] == c {
            proof {
                lemma_find_char_first(s@, c);
                match spec_find_char(s@, c) {
                    Some(k) => {
                        assert(!(k < (i as int)));
                        assert(!((i as int) < k));
                    },
                    None => {
                        assert(false);
                    },
                }
            }
            return Some(i);
        }
        i = i + 1;
    }
    proof {
        lemma_find_char_first(s@, c);
        if let Some(k) = spec_find_char(s@, c) {
            assert(false);
        }
    }
    None
}

/// `spec_find_char` names exactly the first occurrence.
proof fn lemma_find_char_first(s: Seq<char>, c: char)
    ensures
        match spec_find_char(s, c) {
            Some(i) => 0 <= i < s.len() && s[i] == c && (forall|j: int| 0 <= j < i ==> s[j] != c),
            None => forall|j: int| 0 <= j < s.len() ==> s[j] != c,
        },
    decreases s.len(),
{
    if s.len() > 0 && s[0] != c {
        let d = s.drop_first();
        lemma_find_char_first(d, c);
        match spec_find_char(d, c) {
            Some(i) => {
                assert(s[i + 1] == d[i]);
                assert forall|j: int| 0 <= j < i + 1 implies s[j] != c by {
                    if j >= 1 {
                        assert(s[j] == d[j - 1]);
                    }
                };
            },
            None => {
                assert forall|j: int| 0 <= j < s.len() implies s[j] != c by {
                    if j >= 1 {
                        assert(s[j] == d[j - 1]);
                    }
                };
            },
        }
    }
}

/// Parse a decimal literal into fixed-point micro-units; exactly
/// `spec_parse_alpha`.
pub fn parse_alpha(s: &[char]) -> (r: Option<i64>)
    ensures
        r == spec_parse_alpha(s@),
{
    if s.len() == 0 {
        return None;
    }
    let c0 = s[0];
    let (neg, start): (bool, usize) = if c0 == '-' {
        (true, 1)
    } else if c0 == '+' {
        (false, 1)
    } else {
        (false, 0)
    };
    let ghost body = if s@[0] == '-' || s@[0] == '+' {
        s@.drop_first()
    } else {
        s@
    };
    let blen = s.len() - start;
    proof {
        assert(body =~= s@.subrange(start as int, s@.len() as int));
        assert(body.len() == blen);
    }
    let mut bodyv: Vec<char> = Vec::new();
    let mut i: usize = start;
    while i < s.len()
        invariant
            start <= i <= s@.len(),
            bodyv@ =~= s@.subrange(start as int, i as int),
        decreases s@.len() - i,
    {
        proof {
            assert(s@.subrange(start as int, i as int + 1) =~= s@.subrange(
                start as int,
                i as int,
            ).push(s@[i as int]));
        }
        bodyv.push(s[i]);
        i = i + 1;
    }
    proof {
        assert(bodyv@ == body);
    }
    let parsed: Option<u64> = match find_char(bodyv.as_slice(), '.') {
        None => {
            if 1 <= bodyv.len() && bodyv.len() <= 12 {
                match parse_digits(bodyv.as_slice()) {
                    Some(v) => Some(v * 1_000_000),
                    None => None,
                }
            } else {
                None
            }
        },
        Some(p) => {
            proof {
                lemma_find_char_first(body, '.');
            }
            let ip: Vec<char> = slice_range(bodyv.as_slice(), 0, p);
            let fp: Vec<char> = slice_range(bodyv.as_slice(), p + 1, bodyv.len());
            proof {
                assert(ip@ =~= body.take(p as int));
                assert(fp@ =~= body.skip(p as int + 1));
            }
            if ip.len() > 12 || ip.len() + fp.len() < 1 {
                None
            } else {
                let fklen: usize = if fp.len() <= 6 {
                    fp.len()
                } else {
                    6
                };
                let f6: Vec<char> = slice_range(fp.as_slice(), 0, fklen);
                proof {
                    if fp@.len() <= 6 {
                        assert(f6@ =~= fp@);
                    } else {
                        assert(f6@ =~= fp@.take(6));
                    }
                }
                match (parse_digits(ip.as_slice()), check_all_digits(fp.as_slice())) {
                    (Some(iv), true) => {
                        let fv = match parse_digits(f6.as_slice()) {
                            Some(v) => v,
                            None => {
                                proof {
                                    assert(forall|k: int|
                                        0 <= k < f6@.len() ==> #[trigger] f6@[k] == fp@[k]);
                                    assert(false);
                                }
                                0
                            },
                        };
                        let scale: u64 = if fklen == 0 {
                            1_000_000
                        } else if fklen == 1 {
                            100_000
                        } else if fklen == 2 {
                            10_000
                        } else if fklen == 3 {
                            1_000
                        } else if fklen == 4 {
                            100
                        } else if fklen == 5 {
                            10
                        } else {
                            1
                        };
                        proof {
                            assert(spec_all_digits(f6@)) by {
                                assert(forall|k: int|
                                    0 <= k < f6@.len() ==> #[trigger] f6@[k] == fp@[k]);
                            };
                            lemma_digits_val_bounds(f6@);
                            assert((fv as int) * (scale as int) < 1_000_000_000_000)
                                by (nonlinear_arith)
                                requires
                                    0 <= fv as int,
                                    (fv as int) < spec_pow10(f6@.len() as int),
                                    scale as int == spec_frac_scale(f6@.len() as int),
                                    f6@.len() <= 6,
                                    spec_pow10(f6@.len() as int) * spec_frac_scale(
                                        f6@.len() as int,
                                    ) <= 1_000_000,
                            ;
                        }
                        Some(iv * 1_000_000 + fv * scale)
                    },
                    _ => None,
                }
            }
        },
    };
    match parsed {
        Some(v) => {
            let vi = v as i64;
            if neg {
                Some(-vi)
            } else {
                Some(vi)
            }
        },
        None => None,
    }
}

/// Whether every character of a slice is a decimal digit.
fn check_all_digits(s: &[char]) -> (r: bool)
    ensures
        r == spec_all_digits(s@),
{
    let mut i: usize = 0;
    while i < s.len()
        invariant
            i <= s@.len(),
            forall|j: int| 0 <= j < i as int ==> spec_is_digit(#[trigger] s@[j]),
        decreases s@.len() - i,
    {
        let c = s[i];
        if !('0' <= c && c <= '9') {
            proof {
                assert(!spec_is_digit(s@[i as int]));
            }
            return false;
        }
        i = i + 1;
    }
    true
}

/// A copy of the characters between two positions.
fn slice_range(s: &[char], lo: usize, hi: usize) -> (r: Vec<char>)
    requires
        lo <= hi <= s@.len(),
    ensures
        r@ == s@.subrange(lo as int, hi as int),
{
    let mut out: Vec<char> = Vec::new();
    let mut i: usize = lo;
    while i < hi
        invariant
            lo <= i <= hi <= s@.len(),
            out@ =~= s@.subrange(lo as int, i as int),
        decreases hi - i,
    {
        proof {
            assert(s@.subrange(lo as int, i as int + 1) =~= s@.subrange(lo as int, i as int).push(
                s@[i as int],
            ));
        }
        out.push(s[i]);
        i = i + 1;
    }
    out
}

/// An action the front-end loop must perform after one line: print a
/// message, or send an event; a post is sent without an id, which the sender
/// assigns freshly.
#[derive(Debug, Clone)]
pub enum InputAction {
    Print(String),
    SendUser(UserInput),
    SendPost { user_id: String, text: String },
    SendInteraction(Interaction),
}

/// The model of a front-end action.
pub ghost enum ActionModel {
    Print(Seq<char>),
    SendUser(Seq<char>),
    SendPost { user_id: Seq<char>, text: Seq<char> },
    SendInteraction(InteractionModel),
}

impl View for InputAction {
    type V = ActionModel;

    open spec fn view(&self) -> ActionModel {
        match self {
            InputAction::Print(m) => ActionModel::Print(m@),
            InputAction::SendUser(u) => ActionModel::SendUser(u.id@),
            InputAction::SendPost { user_id, text } => ActionModel::SendPost {
                user_id: user_id@,
                text: text@,
            },
            InputAction::SendInteraction(i) => ActionModel::SendInteraction(i@),
        }
    }
}

impl DeepView for InputAction {
    type V = ActionModel;

    open spec fn deep_view(&self) -> ActionModel {
        self.view()
    }
}

/// The front-end's state between lines: the current user and the users
/// already announced.
#[derive(Debug)]
pub struct InputState {
    pub current_user: Option<String>,
    pub known_users: Vec<String>,
}

/// The model of the front-end state.
pub ghost struct InputStateModel {
    pub current: Option<Seq<char>>,
    pub known: Seq<Seq<char>>,
}

impl View for InputState {
    type V = InputStateModel;

    open spec fn view(&self) -> InputStateModel {
        InputStateModel {
            current: match self.current_user {
                Some(ref c) => Some(c@),
                None => None,
            },
            known: self.known_users.deep_view(),
        }
    }
}

/// Whether an id has already been announced.
pub open spec fn spec_known(known: Seq<Seq<char>>, id: Seq<char>) -> bool {
    exists|i: int| 0 <= i < known.len() && known[i] == id
}

/// Announce a user if it is new: remember it and emit one send action.
pub open spec fn spec_ensure(st: InputStateModel, id: Seq<char>) -> (
    InputStateModel,
    Seq<ActionModel>,
) {
    if spec_known(st.known, id) {
        (st, Seq::empty())
    } else {
        (
            InputStateModel { known: st.known.push(id), ..st },
            seq![ActionModel::SendUser(id)],
        )
    }
}

impl InputState {
    /// A fresh front-end state: no current user, nobody announced.
    pub fn new() -> (r: InputState)
        ensures
            r@.current is None,
            r@.known.len() == 0,
    {
        let r = InputState { current_user: None, known_users: Vec::new() };
        proof {
            assert(r@.known =~= Seq::<Seq<char>>::empty());
        }
        r
    }

    /// Announce a user if it is new, appending the send action.
    fn ensure(&mut self, id: &str, acts: &mut Vec<InputAction>)
        ensures
            final(self)@ == spec_ensure(old(self)@, id@).0,
            final(acts).deep_view() == old(acts).deep_view() + spec_ensure(old(self)@, id@).1,
            final(self)@.current == old(self)@.current,
    {
        let ghost st0 = self@;
        let ghost acts0 = acts.deep_view();
        let mut i: usize = 0;
        while i < self.known_users.len()
            invariant
                self@ == st0,
                acts.deep_view() == acts0,
                i <= self.known_users@.len(),
                st0.known.len() == self.known_users@.len(),
                forall|j: int| 0 <= j < i as int ==> st0.known[j] != id@,
            decreases self.known_users@.len() - i,
        {
            if str_eq(self.known_users[i].as_str(), id) {
                proof {
                    assert(st0.known[i as int] == id@);
                    assert(spec_known(st0.known, id@));
                    assert(acts.deep_view() =~= acts0 + Seq::<ActionModel>::empty());
                }
                return ;
            }
            i = i + 1;
        }
        proof {
            if spec_known(st0.known, id@) {
                let k = choose|k: int| 0 <= k < st0.known.len() && st0.known[k] == id@;
                assert(false);
            }
        }
        let ghost known0 = self.known_users.deep_view();
        self.known_users.push(id.to_owned());
        acts.push(InputAction::SendUser(UserInput::new(id)));
        proof {
            assert(self.known_users.deep_view() =~= known0.push(id@));
            assert(acts.deep_view() =~= acts0 + seq![ActionModel::SendUser(id@)]);
        }
    }
}

/// A token is exactly one given character.
fn tok_is_1(tok: &Vec<char>, c: char) -> (r: bool)
    ensures
        r == (tok@ == seq![c]),
{
    let hit = tok.len() == 1 && tok[0] == c;
    proof {
        if hit {
            assert(tok@ =~= seq![c]);
        } else {
            assert(seq![c].len() == 1 && seq![c][0] == c);
        }
    }
    hit
}

/// A token is exactly the four given characters.
fn tok_is_4(tok: &Vec<char>, c0: char, c1: char, c2: char, c3: char) -> (r: bool)
    ensures
        r == (tok@ == seq![c0, c1, c2, c3]),
{
    let hit = tok.len() == 4 && tok[0] == c0 && tok[1] == c1 && tok[2] == c2 && tok[3] == c3;
    proof {
        let pat = seq![c0, c1, c2, c3];
        if hit {
            assert(tok@ =~= pat);
        } else {
            assert(pat.len() == 4 && pat[0] == c0 && pat[1] == c1 && pat[2] == c2 && pat[3] == c3);
        }
    }
    hit
}

/// The help line naming every command.
pub open spec fn spec_help_msg() -> Seq<char> {
    "Commands: u <id>, s <id>, p <text>, i post <post_id> <user_id> [alpha], i user <src_id> <dst_id> [alpha], q"@
}

/// The actions of posting a text as a given user: announce the user if new,
/// send the post, confirm.
pub open spec fn spec_post_as(st: InputStateModel, user_id: Seq<char>, text: Seq<char>) -> (
    InputStateModel,
    Seq<ActionModel>,
) {
    let (st1, a1) = spec_ensure(st, user_id);
    (
        st1,
        a1 + seq![
            ActionModel::SendPost { user_id, text },
            ActionModel::Print("Posted as user: "@ + user_id),
        ],
    )
}

/// What one input line does to the front-end: the new state, the actions in
/// order, and whether the session ends. Commands: `u`/`s` set the current
/// user, `p` posts a text as the current user, `i post` and `i user` request
/// interactions, `?`/`help` print the command list, `q` quits; a line
/// `user: text` posts as that user, and any other line posts as the current
/// user.
pub open spec fn spec_input_step(st: InputStateModel, line: Seq<char>) -> (
    InputStateModel,
    Seq<ActionModel>,
    bool,
) {
    let t = spec_trim(line);
    if t.len() == 0 {
        (st, Seq::empty(), false)
    } else if t == seq!['q'] || t == seq!['Q'] {
        (st, Seq::empty(), true)
    } else {
        let parts = spec_tokens(t);
        if parts.len() == 0 {
            (st, Seq::empty(), false)
        } else {
            let cmd = parts[0];
            if cmd == seq!['u'] || cmd == seq!['s'] {
                if parts.len() < 2 {
                    (
                        st,
                        seq![ActionModel::Print("Usage: "@ + cmd + " <id>"@)],
                        false,
                    )
                } else {
                    let id = parts[1];
                    let (st1, a1) = spec_ensure(st, id);
                    (
                        InputStateModel { current: Some(id), ..st1 },
                        a1 + seq![ActionModel::Print("Current user: "@ + id)],
                        false,
                    )
                }
            } else if cmd == seq!['p'] {
                let text = spec_trim(t.drop_first());
                if text.len() == 0 {
                    (st, seq![ActionModel::Print("Usage: p <text>"@)], false)
                } else {
                    match st.current {
                        None => (st, seq![ActionModel::Print("No current user..."@)], false),
                        Some(cu) => {
                            let stepped = spec_post_as(st, cu, text);
                            (stepped.0, stepped.1, false)
                        },
                    }
                }
            } else if cmd == seq!['i'] {
                if parts.len() < 2 {
                    (st, seq![ActionModel::Print("Usage: i post|user ..."@)], false)
                } else if parts[1] == seq!['p', 'o', 's', 't'] {
                    if parts.len() < 4 {
                        (
                            st,
                            seq![ActionModel::Print("Usage: i post <post_id> <user_id> [alpha]"@)],
                            false,
                        )
                    } else {
                        let alpha = if parts.len() >= 5 {
                            match spec_parse_alpha(parts[4]) {
                                Some(a) => a,
                                None => 500_000i64,
                            }
                        } else {
                            500_000i64
                        };
                        let (st1, a1) = spec_ensure(st, parts[3]);
                        (
                            st1,
                            a1 + seq![
                                ActionModel::SendInteraction(
                                    InteractionModel {
                                        kind: InteractionType::PostToUser,
                                        src: parts[2],
                                        dst: parts[3],
                                        alpha,
                                    },
                                ),
                            ],
                            false,
                        )
                    }
                } else if parts[1] == seq!['u', 's', 'e', 'r'] {
                    if parts.len() < 4 {
                        (
                            st,
                            seq![ActionModel::Print("Usage: i user <src_id> <dst_id> [alpha]"@)],
                            false,
                        )
                    } else {
                        let alpha = if parts.len() >= 5 {
                            match spec_parse_alpha(parts[4]) {
                                Some(a) => a,
                                None => 500_000i64,
                            }
                        } else {
                            500_000i64
                        };
                        let (st1, a1) = spec_ensure(st, parts[2]);
                        let (st2, a2) = spec_ensure(st1, parts[3]);
                        (
                            st2,
                            a1 + a2 + seq![
                                ActionModel::SendInteraction(
                                    InteractionModel {
                                        kind: InteractionType::UserToUser,
                                        src: parts[2],
                                        dst: parts[3],
                                        alpha,
                                    },
                                ),
                            ],
                            false,
                        )
                    }
                } else {
                    (st, seq![ActionModel::Print("Usage: i post|user ..."@)], false)
                }
            } else if cmd == seq!['?'] || cmd == seq!['h', 'e', 'l', 'p'] {
                (st, seq![ActionModel::Print(spec_help_msg())], false)
            } else {
                match spec_find_char(t, ':') {
                    Some(p) => {
                        let uid = spec_trim(t.take(p));
                        let text = spec_trim(t.skip(p + 1));
                        if uid.len() == 0 || text.len() == 0 {
                            (st, seq![ActionModel::Print("Usage: <user_id>: <text>"@)], false)
                        } else {
                            let stepped = spec_post_as(st, uid, text);
                            (stepped.0, stepped.1, false)
                        }
                    },
                    None => {
                        match st.current {
                            None => (st, seq![ActionModel::Print("No current user..."@)], false),
                            Some(cu) => {
                                let stepped = spec_post_as(st, cu, t);
                                (stepped.0, stepped.1, false)
                            },
                        }
                    },
                }
            }
        }
    }
}

impl InputState {
    /// Post a text as a given user: announce if new, send, confirm.
    fn post_as(&mut self, user_id: &str, text: String, acts: &mut Vec<InputAction>)
        ensures
            final(self)@ == spec_post_as(old(self)@, user_id@, text@).0,
            final(acts).deep_view() == old(acts).deep_view() + spec_post_as(
                old(self)@,
                user_id@,
                text@,
            ).1,
    {
        let ghost acts0 = acts.deep_view();
        let ghost ens = spec_ensure(old(self)@, user_id@);
        self.ensure(user_id, acts);
        let ghost acts1 = acts.deep_view();
        proof {
            assert(acts1 == acts0 + ens.1);
        }
        let sp = InputAction::SendPost { user_id: user_id.to_owned(), text };
        proof {
            assert(sp@ == (ActionModel::SendPost { user_id: user_id@, text: text@ }));
        }
        acts.push(sp);
        let pr = InputAction::Print("Posted as user: ".to_owned().concat(user_id));
        proof {
            assert(pr@ == ActionModel::Print("Posted as user: "@ + user_id@));
        }
        acts.push(pr);
        proof {
            assert(acts.deep_view() =~= acts1.push(
                ActionModel::SendPost { user_id: user_id@, text: text@ },
            ).push(ActionModel::Print("Posted as user: "@ + user_id@)));
            assert(acts1.push(ActionModel::SendPost { user_id: user_id@, text: text@ }).push(
                ActionModel::Print("Posted as user: "@ + user_id@),
            ) =~= acts0 + spec_post_as(old(self)@, user_id@, text@).1);
        }
    }

    /// Process one input line: update the state and return the actions to
    /// perform, in order, and whether the session ends. Exactly
    /// `spec_input_step` on the model.
    pub fn step(&mut self, line: &str) -> (r: (Vec<InputAction>, bool))
        ensures
            final(self)@ == spec_input_step(old(self)@, line@).0,
            r.0.deep_view() == spec_input_step(old(self)@, line@).1,
            r.1 == spec_input_step(old(self)@, line@).2,
    {
        let ghost st0 = self@;
        let mut acts: Vec<InputAction> = Vec::new();
        proof {
            assert(acts.deep_view() =~= Seq::<ActionModel>::empty());
        }
        let raw = str_chars(line);
        let t = trim_chars(raw.as_slice());
        if t.len() == 0 {
            return (acts, false);
        }
        if t.len() == 1 && (t[0] == 'q' || t[0] == 'Q') {
            proof {
                assert(t@ =~= seq![t@[0]]);
            }
            return (acts, true);
        }
        proof {
            assert(t@ != seq!['q'] && t@ != seq!['Q']) by {
                if t@ == seq!['q'] || t@ == seq!['Q'] {
                    assert(t@.len() == 1);
                }
            };
        }
        let parts = tokenize(t.as_slice());
        let ghost pdv = parts.deep_view();
        if parts.len() == 0 {
            return (acts, false);
        }
        proof {
            assert(pdv[0] == parts@[0].deep_view());
            assert(parts@[0].deep_view() =~= parts@[0]@);
        }
        let cmd = &parts[0];
        let is_u = tok_is_1(cmd, 'u');
        let is_s = tok_is_1(cmd, 's');
        if is_u || is_s {
            if parts.len() < 2 {
                proof {
                    reveal_strlit("Usage: ");
                    reveal_strlit(" <id>");
                }
                let cmd_str = chars_to_string(cmd.as_slice());
                acts.push(
                    InputAction::Print(
                        "Usage: ".to_owned().concat(cmd_str.as_str()).concat(" <id>"),
                    ),
                );
                proof {
                    assert(acts.deep_view() =~= spec_input_step(st0, line@).1);
                }
                return (acts, false);
            }
            proof {
                assert(pdv[1] == parts@[1].deep_view());
                assert(parts@[1].deep_view() =~= parts@[1]@);
            }
            let id_str = chars_to_string(parts[1].as_slice());
            self.ensure(id_str.as_str(), &mut acts);
            self.current_user = Some(id_str.clone());
            proof {
                reveal_strlit("Current user: ");
            }
            acts.push(
                InputAction::Print("Current user: ".to_owned().concat(id_str.as_str())),
            );
            proof {
                assert(acts.deep_view() =~= spec_input_step(st0, line@).1);
            }
            return (acts, false);
        }
        if tok_is_1(cmd, 'p') {
            let rest = slice_range(t.as_slice(), 1, t.len());
            let text = trim_chars(rest.as_slice());
            proof {
                assert(rest@ =~= t@.drop_first());
            }
            if text.len() == 0 {
                proof {
                    reveal_strlit("Usage: p <text>");
                }
                acts.push(InputAction::Print("Usage: p <text>".to_owned()));
                proof {
                    assert(acts.deep_view() =~= spec_input_step(st0, line@).1);
                }
                return (acts, false);
            }
            let cu: String = match &self.current_user {
                Some(c) => c.clone(),
                None => {
                    proof {
                        reveal_strlit("No current user...");
                    }
                    acts.push(InputAction::Print("No current user...".to_owned()));
                    proof {
                        assert(acts.deep_view() =~= spec_input_step(st0, line@).1);
                    }
                    return (acts, false);
                },
            };
            let text_str = chars_to_string(text.as_slice());
            self.post_as(cu.as_str(), text_str, &mut acts);
            proof {
                assert(acts.deep_view() =~= spec_input_step(st0, line@).1);
            }
            return (acts, false);
        }
        if tok_is_1(cmd, 'i') {
            if parts.len() < 2 {
                proof {
                    reveal_strlit("Usage: i post|user ...");
                }
                acts.push(InputAction::Print("Usage: i post|user ...".to_owned()));
                proof {
                    assert(acts.deep_view() =~= spec_input_step(st0, line@).1);
                }
                return (acts, false);
            }
            proof {
                assert(pdv[1] == parts@[1].deep_view());
                assert(parts@[1].deep_view() =~= parts@[1]@);
            }
            let kind_post = tok_is_4(&parts[1], 'p', 'o', 's', 't');
            let kind_user = tok_is_4(&parts[1], 'u', 's', 'e', 'r');
            if kind_post || kind_user {
                if parts.len() < 4 {
                    if kind_post {
                        proof {
                            reveal_strlit("Usage: i post <post_id> <user_id> [alpha]");
                        }
                        acts.push(
                            InputAction::Print(
                                "Usage: i post <post_id> <user_id> [alpha]".to_owned(),
                            ),
                        );
                    } else {
                        proof {
                            reveal_strlit("Usage: i user <src_id> <dst_id> [alpha]");
                        }
                        acts.push(
                            InputAction::Print(
                                "Usage: i user <src_id> <dst_id> [alpha]".to_owned(),
                            ),
                        );
                    }
                    proof {
                        assert(acts.deep_view() =~= spec_input_step(st0, line@).1);
                    }
                    return (acts, false);
                }
                proof {
                    assert(pdv[2] == parts@[2].deep_view());
                    assert(parts@[2].deep_view() =~= parts@[2]@);
                    assert(pdv[3] == parts@[3].deep_view());
                    assert(parts@[3].deep_view() =~= parts@[3]@);
                }
                let alpha: i64 = if parts.len() >= 5 {
                    proof {
                        assert(pdv[4] == parts@[4].deep_view());
                        assert(parts@[4].deep_view() =~= parts@[4]@);
                    }
                    match parse_alpha(parts[4].as_slice()) {
                        Some(a) => a,
                        None => 500_000,
                    }
                } else {
                    500_000
                };
                let src_str = chars_to_string(parts[2].as_slice());
                let dst_str = chars_to_string(parts[3].as_slice());
                if kind_post {
                    self.ensure(dst_str.as_str(), &mut acts);
                    acts.push(
                        InputAction::SendInteraction(
                            Interaction {
                                interaction_type: InteractionType::PostToUser,
                                src_id: src_str,
                                dst_id: dst_str,
                                alpha,
                            },
                        ),
                    );
                } else {
                    self.ensure(src_str.as_str(), &mut acts);
                    self.ensure(dst_str.as_str(), &mut acts);
                    acts.push(
                        InputAction::SendInteraction(
                            Interaction {
                                interaction_type: InteractionType::UserToUser,
                                src_id: src_str,
                                dst_id: dst_str,
                                alpha,
                            },
                        ),
                    );
                }
                proof {
                    assert(acts.deep_view() =~= spec_input_step(st0, line@).1);
                }
                return (acts, false);
            }
            proof {
                reveal_strlit("Usage: i post|user ...");
            }
            acts.push(InputAction::Print("Usage: i post|user ...".to_owned()));
            proof {
                assert(acts.deep_view() =~= spec_input_step(st0, line@).1);
            }
            return (acts, false);
        }
        let is_help = tok_is_1(cmd, '?') || tok_is_4(cmd, 'h', 'e', 'l', 'p');
        if is_help {
            proof {
                reveal_strlit(
                    "Commands: u <id>, s <id>, p <text>, i post <post_id> <user_id> [alpha], i user <src_id> <dst_id> [alpha], q",
                );
            }
            acts.push(
                InputAction::Print(
                    "Commands: u <id>, s <id>, p <text>, i post <post_id> <user_id> [alpha], i user <src_id> <dst_id> [alpha], q".to_owned(),
                ),
            );
            proof {
                assert(acts.deep_view() =~= spec_input_step(st0, line@).1);
            }
            return (acts, false);
        }
        match find_char(t.as_slice(), ':') {
            Some(p) => {
                proof {
                    lemma_find_char_first(t@, ':');
                }
                let before = slice_range(t.as_slice(), 0, p);
                let after = slice_range(t.as_slice(), p + 1, t.len());
                let uid = trim_chars(before.as_slice());
                let text = trim_chars(after.as_slice());
                proof {
                    assert(before@ =~= t@.take(p as int));
                    assert(after@ =~= t@.skip(p as int + 1));
                }
                if uid.len() == 0 || text.len() == 0 {
                    proof {
                        reveal_strlit("Usage: <user_id>: <text>");
                    }
                    acts.push(InputAction::Print("Usage: <user_id>: <text>".to_owned()));
                    proof {
                        assert(acts.deep_view() =~= spec_input_step(st0, line@).1);
                    }
                    return (acts, false);
                }
                let uid_str = chars_to_string(uid.as_slice());
                let text_str = chars_to_string(text.as_slice());
                self.post_as(uid_str.as_str(), text_str, &mut acts);
                proof {
                    assert(acts.deep_view() =~= spec_input_step(st0, line@).1);
                }
                (acts, false)
            },
            None => {
                let cu: String = match &self.current_user {
                    Some(c) => c.clone(),
                    None => {
                        proof {
                            reveal_strlit("No current user...");
                        }
                        acts.push(InputAction::Print("No current user...".to_owned()));
                        proof {
                            assert(acts.deep_view() =~= spec_input_step(st0, line@).1);
                        }
                        return (acts, false);
                    },
                };
                let text_str = chars_to_string(t.as_slice());
                self.post_as(cu.as_str(), text_str, &mut acts);
                proof {
                    assert(acts.deep_view() =~= spec_input_step(st0, line@).1);
                }
                (acts, false)
            },
        }
    }
}

/// Relies on std's `SystemTime::now` and `duration_since`: the wall clock as
/// milliseconds since the Unix epoch, or zero when the clock is set before
/// the epoch. Total: nothing is promised of the value, and no path panics.
#[verifier::external_body]
fn now_millis() -> i64 {
    match std::time::SystemTime::now().duration_since(std::time::UNIX_EPOCH) {
        Ok(elapsed) => elapsed.as_millis() as i64,
        Err(_) => 0,
    }
}

/// The character of a single decimal digit.
pub open spec fn spec_digit_char(d: int) -> char {
    ((48 + d) as u8) as char
}

/// The decimal digits of a non-negative number, most significant first.
pub open spec fn spec_dec_nat(m: int) -> Seq<char>
    decreases m,
{
    if m < 10 {
        seq![spec_digit_char(if m < 0 { 0 } else { m })]
    } else {
        spec_dec_nat(m / 10).push(spec_digit_char(m % 10))
    }
}

/// The decimal rendering of a signed number.
pub open spec fn spec_decimal(n: int) -> Seq<char> {
    if n < 0 {
        seq!['-'] + spec_dec_nat(-n)
    } else {
        spec_dec_nat(n)
    }
}

/// The id given to a post born at the given millisecond.
pub open spec fn spec_post_id(millis: int) -> Seq<char> {
    "post-"@ + spec_decimal(millis)
}

/// The decimal digits of a non-negative number, executable.
fn digits_u64(m: u64) -> (r: Vec<char>)
    ensures
        r@ == spec_dec_nat(m as int),
    decreases m,
{
    if m < 10 {
        let c = ((48 + m) as u8) as char;
        let mut out: Vec<char> = Vec::new();
        out.push(c);
        proof {
            assert(out@ =~= seq![spec_digit_char(m as int)]);
        }
        out
    } else {
        let mut out = digits_u64(m / 10);
        let c = ((48 + (m % 10)) as u8) as char;
        out.push(c);
        out
    }
}

/// The decimal rendering of a signed number, executable.
fn format_i64(n: i64) -> (r: Vec<char>)
    ensures
        r@ == spec_decimal(n as int),
{
    if n < 0 {
        let m: u64 = (-(n as i128)) as u64;
        let mut out: Vec<char> = Vec::new();
        out.push('-');
        let ds = digits_u64(m);
        let mut i: usize = 0;
        while i < ds.len()
            invariant
                i <= ds@.len(),
                out@ =~= seq!['-'] + ds@.take(i as int),
            decreases ds@.len() - i,
        {
            proof {
                assert(ds@.take(i as int + 1) =~= ds@.take(i as int).push(ds@[i as int]));
            }
            out.push(ds[i]);
            i = i + 1;
        }
        proof {
            assert(ds@.take(ds@.len() as int) =~= ds@);
        }
        out
    } else {
        digits_u64(n as u64)
    }
}

/// A fresh post id: the word `post`, a dash, and the decimal milliseconds of
/// the moment of creation.
pub fn fresh_post_id() -> (r: String)
    ensures
        exists|m: int| r@ == spec_post_id(m),
{
    let m = now_millis();
    let ds = format_i64(m);
    let tail = chars_to_string(ds.as_slice());
    let r = "post-".to_owned().concat(tail.as_str());
    proof {
        assert(r@ == spec_post_id(m as int));
    }
    r
}

/// A post input for the given author and text, under a fresh timestamp id.
pub fn make_post_input(user_id: &str, text: &str) -> (r: PostInput)
    ensures
        r.user_id@ == user_id@,
        r.text@ == text@,
        exists|m: int| r.id@ == spec_post_id(m),
{
    let id = fresh_post_id();
    PostInput { id, user_id: user_id.to_owned(), text: text.to_owned() }
}

} // verus!
