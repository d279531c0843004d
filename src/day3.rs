//! Scanner and interpreter for `mul(a,b)`, `do()` and `don't()` instructions.
//!
//! Three automata run in lock-step over the input and append every completed
//! instruction to one output stream, separated by single spaces. The
//! interpreter walks that stream word by word and sums the products of the
//! `mul` instructions, optionally honouring the `do()` / `don't()` toggles.
use vstd::prelude::*;

use crate::common::Solution;
use crate::text::{
    chars_of, decimal, find_char, is_ascii_digit, is_digit, lemma_decimal_grows, next_index,
    push_char, split_state, split_words, views_of, words,
};

verus! {

/// States of the automaton recognising `mul(<digits>,<digits>)`.
#[derive(Clone, Copy, PartialEq, Eq, Structural)]
pub enum MulState {
    Clear,
    M,
    U,
    L,
    OpenBracket,
    Number1,
    Comma,
    Number2,
    CloseBracket,
}

/// States of the automaton recognising `do()`.
#[derive(Clone, Copy, PartialEq, Eq, Structural)]
pub enum DoState {
    Clear,
    D,
    O,
    OpenBracket,
    CloseBracket,
}

/// States of the automaton recognising `don't()`.
#[derive(Clone, Copy, PartialEq, Eq, Structural)]
pub enum DontState {
    Clear,
    D,
    O,
    N,
    Tick,
    T,
    OpenBracket,
    CloseBracket,
}

/// The abstract state of a scanner: the three automata, the text of the
/// pending `mul` candidate and everything emitted so far.
pub struct ScanState {
    pub mul_state: MulState,
    pub do_state: DoState,
    pub dont_state: DontState,
    pub buffer: Seq<char>,
    pub output: Seq<char>,
}

/// Transition of the `mul` automaton from any state but `CloseBracket`. A
/// mismatch returns to `Clear` without testing the character again, so no
/// match starts at the second `m` of `mmul(`.
pub open spec fn mul_next(st: MulState, c: char) -> MulState {
    match st {
        MulState::Clear => if c == 'm' { MulState::M } else { MulState::Clear },
        MulState::M => if c == 'u' { MulState::U } else { MulState::Clear },
        MulState::U => if c == 'l' { MulState::L } else { MulState::Clear },
        MulState::L => if c == '(' { MulState::OpenBracket } else { MulState::Clear },
        MulState::OpenBracket => if is_digit(c) { MulState::Number1 } else { MulState::Clear },
        MulState::Number1 => if is_digit(c) {
            MulState::Number1
        } else if c == ',' {
            MulState::Comma
        } else {
            MulState::Clear
        },
        MulState::Comma => if is_digit(c) { MulState::Number2 } else { MulState::Clear },
        MulState::Number2 => if is_digit(c) {
            MulState::Number2
        } else if c == ')' {
            MulState::CloseBracket
        } else {
            MulState::Clear
        },
        MulState::CloseBracket => MulState::Clear,
    }
}

/// Transition of the `do()` automaton from any state but `CloseBracket`.
pub open spec fn do_next(st: DoState, c: char) -> DoState {
    match st {
        DoState::Clear => if c == 'd' { DoState::D } else { DoState::Clear },
        DoState::D => if c == 'o' { DoState::O } else { DoState::Clear },
        DoState::O => if c == '(' { DoState::OpenBracket } else { DoState::Clear },
        DoState::OpenBracket => if c == ')' { DoState::CloseBracket } else { DoState::Clear },
        DoState::CloseBracket => DoState::Clear,
    }
}

/// Transition of the `don't()` automaton from any state but `CloseBracket`.
pub open spec fn dont_next(st: DontState, c: char) -> DontState {
    match st {
        DontState::Clear => if c == 'd' { DontState::D } else { DontState::Clear },
        DontState::D => if c == 'o' { DontState::O } else { DontState::Clear },
        DontState::O => if c == 'n' { DontState::N } else { DontState::Clear },
        DontState::N => if c == '\'' { DontState::Tick } else { DontState::Clear },
        DontState::Tick => if c == 't' { DontState::T } else { DontState::Clear },
        DontState::T => if c == '(' { DontState::OpenBracket } else { DontState::Clear },
        DontState::OpenBracket => if c == ')' { DontState::CloseBracket } else { DontState::Clear },
        DontState::CloseBracket => DontState::Clear,
    }
}

pub open spec fn do_word() -> Seq<char> {
    seq!['d', 'o', '(', ')']
}

pub open spec fn dont_word() -> Seq<char> {
    seq!['d', 'o', 'n', '\'', 't', '(', ')']
}

/// `out` with `token` appended, a space in between unless `out` is empty.
pub open spec fn emit(out: Seq<char>, token: Seq<char>) -> Seq<char> {
    if out.len() > 0 {
        out.push(' ') + token
    } else {
        token
    }
}

/// One character fed to the `mul` automaton. A completed match is emitted
/// first, then the character is fed again to the reset automaton.
pub open spec fn mul_step(s: ScanState, c: char) -> ScanState {
    let (st, buf, out) = if s.mul_state == MulState::CloseBracket {
        (MulState::Clear, Seq::<char>::empty(), emit(s.output, s.buffer))
    } else {
        (s.mul_state, s.buffer, s.output)
    };
    let n = mul_next(st, c);
    ScanState {
        mul_state: n,
        buffer: if n == MulState::Clear { Seq::empty() } else { buf.push(c) },
        output: out,
        ..s
    }
}

/// One character fed to the `do()` automaton.
pub open spec fn do_step(s: ScanState, c: char) -> ScanState {
    let (st, out) = if s.do_state == DoState::CloseBracket {
        (DoState::Clear, emit(s.output, do_word()))
    } else {
        (s.do_state, s.output)
    };
    ScanState { do_state: do_next(st, c), output: out, ..s }
}

/// One character fed to the `don't()` automaton.
pub open spec fn dont_step(s: ScanState, c: char) -> ScanState {
    let (st, out) = if s.dont_state == DontState::CloseBracket {
        (DontState::Clear, emit(s.output, dont_word()))
    } else {
        (s.dont_state, s.output)
    };
    ScanState { dont_state: dont_next(st, c), output: out, ..s }
}

/// One character fed to the three automata, in a fixed order.
pub open spec fn put_char_spec(s: ScanState, c: char) -> ScanState {
    dont_step(do_step(mul_step(s, c), c), c)
}

pub open spec fn initial_scan_state() -> ScanState {
    ScanState {
        mul_state: MulState::Clear,
        do_state: DoState::Clear,
        dont_state: DontState::Clear,
        buffer: Seq::empty(),
        output: Seq::empty(),
    }
}

/// The scanner's state after the characters of `s`, fed one by one.
pub open spec fn feed(s: Seq<char>) -> ScanState
    decreases s.len(),
{
    if s.len() == 0 {
        initial_scan_state()
    } else {
        put_char_spec(feed(s.drop_last()), s.last())
    }
}

/// The token stream of `s`: everything emitted once `s` and a terminating
/// space have been fed.
pub open spec fn scan_spec(s: Seq<char>) -> Seq<char> {
    put_char_spec(feed(s), ' ').output
}

/// A scanner over a character stream.
pub struct LexicalAnalyzer {
    mul_state: MulState,
    do_state: DoState,
    dont_state: DontState,
    buffer: String,
    /// The token stream emitted so far.
    pub output: String,
}

impl View for LexicalAnalyzer {
    type V = ScanState;

    closed spec fn view(&self) -> ScanState {
        ScanState {
            mul_state: self.mul_state,
            do_state: self.do_state,
            dont_state: self.dont_state,
            buffer: self.buffer@,
            output: self.output@,
        }
    }
}

/// Appends `token` to `out`, a space in between unless `out` is empty.
fn emit_token(out: &mut String, token: &str)
    ensures
        final(out)@ == emit(old(out)@, token@),
{
    if !out.as_str().is_empty() {
        push_char(out, ' ');
    }
    out.append(token);
}

impl LexicalAnalyzer {
    /// A scanner that has read nothing.
    pub fn new() -> (r: Self)
        ensures
            r@ == initial_scan_state(),
    {
        Self {
            mul_state: MulState::Clear,
            do_state: DoState::Clear,
            dont_state: DontState::Clear,
            buffer: String::new(),
            output: String::new(),
        }
    }

    /// Feeds one character to the three automata, in a fixed order.
    pub fn put_char(&mut self, c: char)
        ensures
            final(self)@ == put_char_spec(old(self)@, c),
    {
        self.set_mul_state(c);
        self.set_do_state(c);
        self.set_dont_state(c);
    }

    /// Feeds the terminating space that flushes a match completed by the
    /// last character.
    pub fn finalize(&mut self)
        ensures
            final(self)@ == put_char_spec(old(self)@, ' '),
    {
        self.put_char(' ');
    }

    fn set_mul_state(&mut self, c: char)
        ensures
            final(self)@ == mul_step(old(self)@, c),
    {
        if let MulState::CloseBracket = self.mul_state {
            emit_token(&mut self.output, self.buffer.as_str());
            self.buffer = String::new();
            self.mul_state = MulState::Clear;
        }
        let next = match self.mul_state {
            MulState::Clear => if c == 'm' { MulState::M } else { MulState::Clear },
            MulState::M => if c == 'u' { MulState::U } else { MulState::Clear },
            MulState::U => if c == 'l' { MulState::L } else { MulState::Clear },
            MulState::L => if c == '(' { MulState::OpenBracket } else { MulState::Clear },
            MulState::OpenBracket => if is_ascii_digit(c) {
                MulState::Number1
            } else {
                MulState::Clear
            },
            MulState::Number1 => if is_ascii_digit(c) {
                MulState::Number1
            } else if c == ',' {
                MulState::Comma
            } else {
                MulState::Clear
            },
            MulState::Comma => if is_ascii_digit(c) { MulState::Number2 } else { MulState::Clear },
            MulState::Number2 => if is_ascii_digit(c) {
                MulState::Number2
            } else if c == ')' {
                MulState::CloseBracket
            } else {
                MulState::Clear
            },
            MulState::CloseBracket => MulState::Clear,
        };
        self.progress_mul_state(next, c);
    }

    fn set_do_state(&mut self, c: char)
        ensures
            final(self)@ == do_step(old(self)@, c),
    {
        if let DoState::CloseBracket = self.do_state {
            proof {
                reveal_strlit("do()");
                assert("do()"@ =~= do_word());
            }
            emit_token(&mut self.output, "do()");
            self.do_state = DoState::Clear;
        }
        self.do_state = match self.do_state {
            DoState::Clear => if c == 'd' { DoState::D } else { DoState::Clear },
            DoState::D => if c == 'o' { DoState::O } else { DoState::Clear },
            DoState::O => if c == '(' { DoState::OpenBracket } else { DoState::Clear },
            DoState::OpenBracket => if c == ')' { DoState::CloseBracket } else { DoState::Clear },
            DoState::CloseBracket => DoState::Clear,
        };
    }

    fn set_dont_state(&mut self, c: char)
        ensures
            final(self)@ == dont_step(old(self)@, c),
    {
        if let DontState::CloseBracket = self.dont_state {
            proof {
                reveal_strlit("don't()");
                assert("don't()"@ =~= dont_word());
            }
            emit_token(&mut self.output, "don't()");
            self.dont_state = DontState::Clear;
        }
        self.dont_state = match self.dont_state {
            DontState::Clear => if c == 'd' { DontState::D } else { DontState::Clear },
            DontState::D => if c == 'o' { DontState::O } else { DontState::Clear },
            DontState::O => if c == 'n' { DontState::N } else { DontState::Clear },
            DontState::N => if c == '\'' { DontState::Tick } else { DontState::Clear },
            DontState::Tick => if c == 't' { DontState::T } else { DontState::Clear },
            DontState::T => if c == '(' { DontState::OpenBracket } else { DontState::Clear },
            DontState::OpenBracket => if c == ')' {
                DontState::CloseBracket
            } else {
                DontState::Clear
            },
            DontState::CloseBracket => DontState::Clear,
        };
    }

    /// Moves the `mul` automaton to `state` on `c`: the pending candidate
    /// grows by `c`, or is dropped when the automaton is reset.
    fn progress_mul_state(&mut self, state: MulState, c: char)
        ensures
            final(self)@ == (ScanState {
                mul_state: state,
                buffer: if state == MulState::Clear {
                    Seq::empty()
                } else {
                    old(self)@.buffer.push(c)
                },
                ..old(self)@
            }),
    {
        if let MulState::Clear = state {
            self.buffer = String::new();
        } else {
            push_char(&mut self.buffer, c);
        }
        self.mul_state = state;
    }
}

/// The token stream of `input`: every completed `mul(a,b)`, `do()` and
/// `don't()`, in order of completion, separated by single spaces.
pub fn scan(input: &str) -> (r: String)
    ensures
        r@ == scan_spec(input@),
{
    let chars = chars_of(input);
    let mut lexer = LexicalAnalyzer::new();
    let mut i: usize = 0;
    while i < chars.len()
        invariant
            i <= chars@.len(),
            chars@ == input@,
            lexer@ == feed(chars@.take(i as int)),
        decreases chars@.len() - i,
    {
        proof {
            assert(chars@.take(i + 1).drop_last() == chars@.take(i as int));
        }
        lexer.put_char(chars[i]);
        i += 1;
    }
    proof {
        assert(chars@.take(i as int) == input@);
    }
    lexer.finalize();
    lexer.output
}

/// The ASCII digits of `s`, in order.
pub open spec fn digits(s: Seq<char>) -> Seq<char>
    decreases s.len(),
{
    if s.len() == 0 {
        Seq::empty()
    } else if is_digit(s.last()) {
        digits(s.drop_last()).push(s.last())
    } else {
        digits(s.drop_last())
    }
}

/// The number written by the digits of `seg`, all other characters ignored;
/// none where there is no digit or the number exceeds `i32::MAX`.
pub open spec fn segment_number(seg: Seq<char>) -> Option<i32> {
    let d = digits(seg);
    if d.len() > 0 && decimal(d) <= i32::MAX {
        Some(decimal(d) as i32)
    } else {
        None
    }
}

/// The two numbers of a `mul` word: those of the text before its first comma
/// and between its first and second comma.
pub open spec fn extract_spec(w: Seq<char>) -> Option<(i32, i32)> {
    let c1 = next_index(w, ',', 0);
    if c1 >= w.len() {
        None
    } else {
        let c2 = next_index(w, ',', c1 + 1);
        match (segment_number(w.subrange(0, c1)), segment_number(w.subrange(c1 + 1, c2))) {
            (Some(a), Some(b)) => Some((a, b)),
            _ => None,
        }
    }
}

/// What a `mul` word contributes: its two numbers, or zeros where they
/// cannot be read.
pub open spec fn word_pair(w: Seq<char>) -> (i32, i32) {
    match extract_spec(w) {
        Some(p) => p,
        None => (0, 0),
    }
}

pub open spec fn starts_with_mul(w: Seq<char>) -> bool {
    w.len() >= 4 && w.take(4) == seq!['m', 'u', 'l', '(']
}

/// Whether `mul` words count after the words `ws`: a toggle-aware pass is
/// switched by the last `do()` or `don't()`; any other pass always counts.
pub open spec fn armed(ws: Seq<Seq<char>>, toggle: bool) -> bool
    decreases ws.len(),
{
    if ws.len() == 0 {
        true
    } else if toggle && ws.last() == do_word() {
        true
    } else if toggle && ws.last() == dont_word() {
        false
    } else {
        armed(ws.drop_last(), toggle)
    }
}

/// The pairs of the `mul` words of `ws` that count, in order.
pub open spec fn pairs_of(ws: Seq<Seq<char>>, toggle: bool) -> Seq<(i32, i32)>
    decreases ws.len(),
{
    if ws.len() == 0 {
        Seq::empty()
    } else if armed(ws, toggle) && starts_with_mul(ws.last()) {
        pairs_of(ws.drop_last(), toggle).push(word_pair(ws.last()))
    } else {
        pairs_of(ws.drop_last(), toggle)
    }
}

/// The sum of the products of the pairs.
pub open spec fn total(ps: Seq<(i32, i32)>) -> int
    decreases ps.len(),
{
    if ps.len() == 0 {
        0
    } else {
        total(ps.drop_last()) + ps.last().0 * ps.last().1
    }
}

/// The sum of the products of the `mul` words of a token stream that count.
pub open spec fn interpret_spec(stream: Seq<char>, toggle: bool) -> int {
    total(pairs_of(words(stream), toggle))
}

pub open spec fn non_negative(ps: Seq<(i32, i32)>) -> bool {
    forall|i: int| 0 <= i < ps.len() ==> #[trigger] ps[i].0 >= 0 && ps[i].1 >= 0
}

fn is_word(w: &Vec<char>, lit: &str) -> (r: bool)
    ensures
        r == (w@ == lit@),
{
    let l = chars_of(lit);
    if w.len() != l.len() {
        return false;
    }
    let mut i: usize = 0;
    while i < w.len()
        invariant
            w@.len() == l@.len(),
            l@ == lit@,
            i <= w@.len(),
            forall|j: int| 0 <= j < i ==> w@[j] == l@[j],
        decreases w@.len() - i,
    {
        if w[i] != l[i] {
            return false;
        }
        i += 1;
    }
    proof {
        assert(w@ =~= l@);
    }
    true
}

fn is_mul_word(w: &Vec<char>) -> (r: bool)
    ensures
        r == starts_with_mul(w@),
{
    let r = w.len() >= 4 && w[0] == 'm' && w[1] == 'u' && w[2] == 'l' && w[3] == '(';
    proof {
        if w@.len() >= 4 {
            assert(r == (w@.take(4) =~= seq!['m', 'u', 'l', '(']));
        }
    }
    r
}

proof fn lemma_digits_are_digits(s: Seq<char>)
    ensures
        forall|k: int| 0 <= k < digits(s).len() ==> is_digit(#[trigger] digits(s)[k]),
    decreases s.len(),
{
    if s.len() > 0 {
        lemma_digits_are_digits(s.drop_last());
        let p = digits(s.drop_last());
        if is_digit(s.last()) {
            assert forall|k: int| 0 <= k < p.push(s.last()).len() implies is_digit(
                #[trigger] p.push(s.last())[k],
            ) by {
                if k < p.len() {
                    assert(p.push(s.last())[k] == p[k]);
                }
            }
        }
    }
}

/// The number written by the digits of `w[lo..hi]`.
fn segment_value(w: &Vec<char>, lo: usize, hi: usize) -> (r: Option<i32>)
    requires
        lo <= hi <= w@.len(),
    ensures
        r == segment_number(w@.subrange(lo as int, hi as int)),
        r matches Some(v) ==> v >= 0,
{
    let mut value: u64 = 0;
    let mut seen = false;
    let mut too_big = false;
    let mut i = lo;
    while i < hi
        invariant
            lo <= i <= hi <= w@.len(),
            seen == (digits(w@.subrange(lo as int, i as int)).len() > 0),
            too_big ==> decimal(digits(w@.subrange(lo as int, i as int))) > i32::MAX,
            !too_big ==> value == decimal(digits(w@.subrange(lo as int, i as int))),
            !too_big ==> value <= i32::MAX,
        decreases hi - i,
    {
        let c = w[i];
        let ghost sub = w@.subrange(lo as int, i as int);
        proof {
            assert(w@.subrange(lo as int, i + 1) == sub.push(c));
            assert(sub.push(c).drop_last() == sub);
        }
        if is_ascii_digit(c) {
            proof {
                lemma_digits_are_digits(sub);
                lemma_decimal_grows(digits(sub), c);
                assert(digits(sub).push(c).drop_last() == digits(sub));
            }
            seen = true;
            if !too_big {
                value = value * 10 + (c as u64 - '0' as u64);
                if value > i32::MAX as u64 {
                    too_big = true;
                }
            }
        }
        i += 1;
    }
    if seen && !too_big {
        Some(value as i32)
    } else {
        None
    }
}

/// The two numbers of a `mul` word, read from the text before its first
/// comma and between its first and second comma.
fn extract_numbers(w: &Vec<char>) -> (r: Option<(i32, i32)>)
    ensures
        r == extract_spec(w@),
        r matches Some(p) ==> p.0 >= 0 && p.1 >= 0,
{
    let c1 = find_char(w, ',', 0);
    if c1 >= w.len() {
        return None;
    }
    let c2 = find_char(w, ',', c1 + 1);
    let a = segment_value(w, 0, c1);
    let b = segment_value(w, c1 + 1, c2);
    match (a, b) {
        (Some(a), Some(b)) => Some((a, b)),
        _ => None,
    }
}

/// The pairs of numbers of the `mul` words of a token stream, in order. In a
/// toggle-aware pass a `mul` word counts only where no `don't()` stands
/// between it and the last `do()` before it (or the start); otherwise every
/// `mul` word counts.
pub fn tokenize(input: &str, toggle_support: bool) -> (r: Vec<(i32, i32)>)
    ensures
        r@ == pairs_of(words(input@), toggle_support),
        non_negative(r@),
{
    let ws = split_words(&chars_of(input));
    let ghost wv = views_of(ws@);
    let mut tokens: Vec<(i32, i32)> = Vec::new();
    let mut do_flag = true;
    let mut i: usize = 0;
    while i < ws.len()
        invariant
            i <= ws@.len(),
            wv == views_of(ws@),
            wv == words(input@),
            do_flag == armed(wv.take(i as int), toggle_support),
            tokens@ == pairs_of(wv.take(i as int), toggle_support),
            non_negative(tokens@),
        decreases ws@.len() - i,
    {
        let word = &ws[i];
        proof {
            assert(wv.take(i + 1).drop_last() == wv.take(i as int));
            assert(wv.take(i + 1).last() == word@);
            reveal_strlit("do()");
            reveal_strlit("don't()");
            assert("do()"@ =~= do_word());
            assert("don't()"@ =~= dont_word());
        }
        if toggle_support {
            if is_word(word, "do()") {
                do_flag = true;
            } else if is_word(word, "don't()") {
                do_flag = false;
            }
        }
        if do_flag && is_mul_word(word) {
            let pair = match extract_numbers(word) {
                Some(p) => p,
                None => (0, 0),
            };
            tokens.push(pair);
        }
        i += 1;
    }
    proof {
        assert(wv.take(i as int) == wv);
    }
    tokens
}

proof fn lemma_total_grows(ps: Seq<(i32, i32)>, i: int)
    requires
        non_negative(ps),
        0 <= i <= ps.len(),
    ensures
        0 <= total(ps.take(i)) <= total(ps),
    decreases ps.len(),
{
    if ps.len() > 0 {
        let a = ps.last().0 as int;
        let b = ps.last().1 as int;
        assert(a * b >= 0) by (nonlinear_arith)
            requires
                a >= 0,
                b >= 0,
        ;
        if i == ps.len() {
            assert(ps.take(i) == ps);
            lemma_total_grows(ps.drop_last(), 0);
        } else {
            assert(ps.take(i) == ps.drop_last().take(i));
            lemma_total_grows(ps.drop_last(), i);
        }
    } else {
        assert(ps.take(i) == ps);
    }
}

/// The sum of the products of the pairs, where it fits in an `i32`.
fn calculate(tokens: &Vec<(i32, i32)>) -> (r: Option<i32>)
    requires
        non_negative(tokens@),
    ensures
        r == (if total(tokens@) <= i32::MAX {
            Some(total(tokens@) as i32)
        } else {
            None
        }),
        total(tokens@) >= 0,
{
    proof {
        lemma_total_grows(tokens@, 0);
    }
    let mut sum: i64 = 0;
    let mut i: usize = 0;
    while i < tokens.len()
        invariant
            i <= tokens@.len(),
            non_negative(tokens@),
            sum == total(tokens@.take(i as int)),
            sum <= i32::MAX,
        decreases tokens@.len() - i,
    {
        let (a, b) = tokens[i];
        proof {
            assert(tokens@.take(i + 1).drop_last() == tokens@.take(i as int));
            assert(tokens@[i as int].0 >= 0 && tokens@[i as int].1 >= 0);
            assert(0 <= a as int * b as int <= i32::MAX as int * i32::MAX as int) by (nonlinear_arith)
                requires
                    0 <= a <= i32::MAX,
                    0 <= b <= i32::MAX,
            ;
        }
        sum = sum + (a as i64) * (b as i64);
        i += 1;
        if sum > i32::MAX as i64 {
            proof {
                lemma_total_grows(tokens@, i as int);
            }
            return None;
        }
    }
    proof {
        assert(tokens@.take(i as int) == tokens@);
    }
    Some(sum as i32)
}

/// The sum of the products of the `mul` words of a token stream that count
/// (see `tokenize`), where it fits in an `i32`.
pub fn interpret(stream: &str, toggle_aware: bool) -> (r: Option<i32>)
    ensures
        r == (if interpret_spec(stream@, toggle_aware) <= i32::MAX {
            Some(interpret_spec(stream@, toggle_aware) as i32)
        } else {
            None
        }),
        interpret_spec(stream@, toggle_aware) >= 0,
{
    calculate(&tokenize(stream, toggle_aware))
}

/// What `solve` returns for `input`.
pub open spec fn solved(input: Seq<char>, r: Result<Solution, String>) -> bool {
    match r {
        Ok(sol) => sol.one_star_answer == interpret_spec(scan_spec(input), false)
            && sol.two_star_answer == interpret_spec(scan_spec(input), true),
        Err(_) => interpret_spec(scan_spec(input), false) > i32::MAX
            || interpret_spec(scan_spec(input), true) > i32::MAX,
    }
}

/// Both answers for a memory dump: the sum of the products of all `mul`
/// instructions, and that of those enabled by the `do()` / `don't()` toggles.
/// Fails when either sum does not fit in an `i32`.
pub fn solve(input: String) -> (r: Result<Solution, String>)
    ensures
        solved(input@, r),
{
    let parsed = scan(input.as_str());
    let basic = interpret(parsed.as_str(), false);
    let advanced = interpret(parsed.as_str(), true);
    match (basic, advanced) {
        (Some(one_star_answer), Some(two_star_answer)) => Ok(Solution { one_star_answer, two_star_answer }),
        _ => Err("a total does not fit in an i32".to_owned()),
    }
}

/// Text in which neither `m` nor `d` occurs leaves every automaton at rest:
/// its token stream is empty and both totals are zero.
pub proof fn lemma_no_keyword_start_no_tokens(s: Seq<char>)
    requires
        forall|i: int| 0 <= i < s.len() ==> s[i] != 'm' && s[i] != 'd',
    ensures
        scan_spec(s) == Seq::<char>::empty(),
        interpret_spec(scan_spec(s), false) == 0,
        interpret_spec(scan_spec(s), true) == 0,
{
    lemma_feed_at_rest(s);
    assert(put_char_spec(initial_scan_state(), ' ') == initial_scan_state());
    assert(split_state(Seq::<char>::empty()) == (Seq::<Seq<char>>::empty(), Seq::<char>::empty()));
    assert(words(Seq::<char>::empty()) == Seq::<Seq<char>>::empty());
}

proof fn lemma_feed_at_rest(s: Seq<char>)
    requires
        forall|i: int| 0 <= i < s.len() ==> s[i] != 'm' && s[i] != 'd',
    ensures
        feed(s) == initial_scan_state(),
    decreases s.len(),
{
    if s.len() > 0 {
        lemma_feed_at_rest(s.drop_last());
        assert(s.last() == s[s.len() - 1]);
        let c = s.last();
        assert(put_char_spec(initial_scan_state(), c) == initial_scan_state());
    }
}

/// Scanning is a function of the text alone: two scans of equal text give
/// equal token streams.
pub proof fn lemma_scan_repeatable(a: Seq<char>, b: Seq<char>)
    requires
        a == b,
    ensures
        scan_spec(a) == scan_spec(b),
        interpret_spec(scan_spec(a), false) == interpret_spec(scan_spec(b), false),
        interpret_spec(scan_spec(a), true) == interpret_spec(scan_spec(b), true),
{
}

} // verus!
